//! The merge step: gather the template mapping, scan the destination file,
//! keep the template entries whose keys the file does not already define,
//! and render them as `key=value` lines to append.

use vstd::prelude::*;
use crate::bytes::{NL, EQ, copy_range, append_bytes};
use crate::env_map::{EnvMap, map_contains};
use crate::lines::lines;
use crate::parse::{template_lines, template_entries, env_entries, accumulate, needs_newline,
    read_template, scan_env};

verus! {

/// The pairs of `ps`, by their mathematical views.
pub open spec fn pairs_view(ps: Seq<(Vec<u8>, Vec<u8>)>) -> Seq<(Seq<u8>, Seq<u8>)> {
    Seq::new(ps.len(), |i: int| (ps[i].0@, ps[i].1@))
}

/// The template mapping accumulated over `ts` in order: a key that a later
/// template re-declares keeps the later value.
pub open spec fn template_map(ts: Seq<Seq<u8>>) -> Seq<(Seq<u8>, Seq<u8>)>
    decreases ts.len(),
{
    if ts.len() == 0 {
        Seq::empty()
    } else {
        accumulate(template_map(ts.drop_last()), template_entries(template_lines(ts.last())))
    }
}

/// The existing-variables mapping read from the destination file's contents.
pub open spec fn env_map_of(s: Seq<u8>) -> Seq<(Seq<u8>, Seq<u8>)> {
    accumulate(Seq::empty(), env_entries(lines(s)))
}

/// The template entries whose keys `em` does not bind, in template-mapping
/// order.
pub open spec fn new_entries(tm: Seq<(Seq<u8>, Seq<u8>)>, em: Seq<(Seq<u8>, Seq<u8>)>) -> Seq<
    (Seq<u8>, Seq<u8>),
>
    decreases tm.len(),
{
    if tm.len() == 0 {
        Seq::empty()
    } else {
        let front = new_entries(tm.drop_last(), em);
        if map_contains(em, tm.last().0) {
            front
        } else {
            front.push(tm.last())
        }
    }
}

/// One output line: `key=value` and a line feed.
pub open spec fn line_of(k: Seq<u8>, v: Seq<u8>) -> Seq<u8> {
    k + seq![EQ] + v + seq![NL]
}

/// The rendered output lines of `es`, in order.
pub open spec fn render(es: Seq<(Seq<u8>, Seq<u8>)>) -> Seq<u8>
    decreases es.len(),
{
    if es.len() == 0 {
        Seq::empty()
    } else {
        render(es.drop_last()) + line_of(es.last().0, es.last().1)
    }
}

/// Everything one run appends to the destination file: a synthetic newline
/// when the file's last line is unterminated, then one `key=value` line per
/// template key the file does not already define.
pub open spec fn appended_text(existing: Seq<u8>, ts: Seq<Seq<u8>>) -> Seq<u8> {
    let body = render(new_entries(template_map(ts), env_map_of(existing)));
    if needs_newline(existing) {
        seq![NL] + body
    } else {
        body
    }
}

/// The destination file's contents after one run: the old contents, with the
/// appended text after them.
pub open spec fn merged(existing: Seq<u8>, ts: Seq<Seq<u8>>) -> Seq<u8> {
    existing + appended_text(existing, ts)
}

/// The template entries whose keys the existing mapping does not bind, as
/// freshly copied pairs in template-mapping order.
pub fn compute_new_entries(template_vars: &EnvMap, env_vars: &EnvMap) -> (r: Vec<
    (Vec<u8>, Vec<u8>),
>)
    ensures
        pairs_view(r@) == new_entries(template_vars@, env_vars@),
{
    let mut r: Vec<(Vec<u8>, Vec<u8>)> = Vec::new();
    let mut i: usize = 0;
    proof {
        assert(template_vars@.subrange(0, 0) =~= Seq::<(Seq<u8>, Seq<u8>)>::empty());
        assert(pairs_view(r@) =~= new_entries(template_vars@.subrange(0, 0), env_vars@));
    }
    while i < template_vars.len()
        invariant
            i <= template_vars@.len(),
            pairs_view(r@) == new_entries(template_vars@.subrange(0, i as int), env_vars@),
        decreases template_vars@.len() - i,
    {
        let ghost pre = new_entries(template_vars@.subrange(0, i as int), env_vars@);
        let ghost r0 = pairs_view(r@);
        let k = template_vars.key_at(i);
        let fresh = !env_vars.contains_key(k);
        if fresh {
            let key = copy_range(k, 0, k.len());
            let v = template_vars.value_at(i);
            let value = copy_range(v, 0, v.len());
            proof {
                assert(key@ =~= template_vars@[i as int].0);
                assert(value@ =~= template_vars@[i as int].1);
            }
            r.push((key, value));
        }
        proof {
            let cur = template_vars@.subrange(0, i as int + 1);
            assert(cur.drop_last() =~= template_vars@.subrange(0, i as int));
            assert(cur.last() == template_vars@[i as int]);
            if fresh {
                assert(pairs_view(r@) =~= r0.push(template_vars@[i as int]));
                assert(new_entries(cur, env_vars@) == pre.push(template_vars@[i as int]));
            } else {
                assert(new_entries(cur, env_vars@) == pre);
            }
        }
        i = i + 1;
    }
    proof {
        assert(template_vars@.subrange(0, template_vars@.len() as int) =~= template_vars@);
    }
    r
}

/// Render `entries` as output lines, in order.
pub fn render_entries(entries: &Vec<(Vec<u8>, Vec<u8>)>) -> (r: Vec<u8>)
    ensures
        r@ == render(pairs_view(entries@)),
{
    let mut out: Vec<u8> = Vec::new();
    let mut i: usize = 0;
    proof {
        assert(pairs_view(entries@).subrange(0, 0) =~= Seq::<(Seq<u8>, Seq<u8>)>::empty());
        assert(out@ =~= render(pairs_view(entries@).subrange(0, 0)));
    }
    while i < entries.len()
        invariant
            i <= entries@.len(),
            out@ == render(pairs_view(entries@).subrange(0, i as int)),
        decreases entries@.len() - i,
    {
        let ghost pv = pairs_view(entries@);
        let ghost pre = pv.subrange(0, i as int);
        let ghost out0 = out@;
        append_bytes(&mut out, &entries[i].0);
        out.push(EQ);
        append_bytes(&mut out, &entries[i].1);
        out.push(NL);
        proof {
            let cur = pv.subrange(0, i as int + 1);
            assert(cur.drop_last() =~= pre);
            assert(cur.last() == pv[i as int]);
            assert(out@ =~= out0 + line_of(pv[i as int].0, pv[i as int].1));
            assert(render(cur) == render(pre) + line_of(pv[i as int].0, pv[i as int].1));
        }
        i = i + 1;
    }
    proof {
        assert(pairs_view(entries@).subrange(0, pairs_view(entries@).len() as int)
            =~= pairs_view(entries@));
    }
    out
}

/// Compute everything one run appends to the destination file, from the
/// file's current contents and the templates' contents in order.
pub fn merge_append_text(existing: &Vec<u8>, templates: &Vec<Vec<u8>>) -> (r: Vec<u8>)
    ensures
        r@ == appended_text(existing@, templates@.map_values(|t: Vec<u8>| t@)),
{
    let ghost tv = templates@.map_values(|t: Vec<u8>| t@);
    let mut template_variables = EnvMap::new();
    let mut ti: usize = 0;
    proof {
        assert(tv.subrange(0, 0) =~= Seq::<Seq<u8>>::empty());
    }
    while ti < templates.len()
        invariant
            ti <= templates@.len(),
            tv == templates@.map_values(|t: Vec<u8>| t@),
            template_variables@ == template_map(tv.subrange(0, ti as int)),
        decreases templates@.len() - ti,
    {
        read_template(&templates[ti], &mut template_variables);
        proof {
            let cur = tv.subrange(0, ti as int + 1);
            assert(cur.drop_last() =~= tv.subrange(0, ti as int));
            assert(cur.last() == tv[ti as int]);
        }
        ti = ti + 1;
    }
    proof {
        assert(tv.subrange(0, tv.len() as int) =~= tv);
    }
    let scanned = scan_env(existing);
    let env_variables = scanned.0;
    let add_line_break = scanned.1;
    let new_pairs = compute_new_entries(&template_variables, &env_variables);
    let mut out: Vec<u8> = Vec::new();
    if add_line_break {
        out.push(NL);
    }
    let body = render_entries(&new_pairs);
    append_bytes(&mut out, &body);
    proof {
        assert(out@ =~= appended_text(existing@, tv));
    }
    out
}

} // verus!
