//! The guarantees of a whole run, proved over the specification functions:
//! a second run with the same templates appends nothing, existing keys keep
//! their values, an unterminated final line is protected by exactly one
//! synthetic newline, and the last template wins for a key declared twice.

use vstd::prelude::*;
use crate::bytes::{NL, EQ, HASH, SPACE, find, trim, lemma_find_props, lemma_find_is};
use crate::env_map::{map_contains, map_lookup, map_insert, lemma_insert_contains,
    lemma_insert_lookup};
use crate::lines::{lines, lemma_lines_no_nl, lemma_lines_append, lemma_lines_terminate};
use crate::parse::{template_line_entry, env_line_entry, template_lines, template_entries,
    env_entries, accumulate, needs_newline, chomp_cr};
use crate::merge::{template_map, env_map_of, new_entries, line_of, render, appended_text, merged};

verus! {

/// Whether the entry list `es` declares the key `q`.
pub open spec fn declares(es: Seq<(Seq<u8>, Seq<u8>)>, q: Seq<u8>) -> bool
    decreases es.len(),
{
    es.len() > 0 && (es.last().0 == q || declares(es.drop_last(), q))
}

/// The value of the last entry for `q` in `es`.
pub open spec fn last_value(es: Seq<(Seq<u8>, Seq<u8>)>, q: Seq<u8>) -> Seq<u8>
    decreases es.len(),
{
    if es.len() == 0 {
        Seq::empty()
    } else if es.last().0 == q {
        es.last().1
    } else {
        last_value(es.drop_last(), q)
    }
}

proof fn lemma_declares_exists(es: Seq<(Seq<u8>, Seq<u8>)>, q: Seq<u8>)
    ensures
        declares(es, q) <==> exists|i: int| 0 <= i < es.len() && (#[trigger] es[i]).0 == q,
    decreases es.len(),
{
    if es.len() > 0 {
        lemma_declares_exists(es.drop_last(), q);
        if es.last().0 == q {
            assert(es[es.len() - 1].0 == q);
        } else if declares(es.drop_last(), q) {
            let i = choose|i: int|
                0 <= i < es.drop_last().len() && (#[trigger] es.drop_last()[i]).0 == q;
            assert(es[i] == es.drop_last()[i]);
        } else {
            if exists|i: int| 0 <= i < es.len() && (#[trigger] es[i]).0 == q {
                let i = choose|i: int| 0 <= i < es.len() && (#[trigger] es[i]).0 == q;
                assert(i < es.len() - 1);
                assert(es.drop_last()[i] == es[i]);
            }
        }
    }
}

/// Accumulating `es` onto `m` binds exactly the keys of `m` and of `es`.
proof fn lemma_accumulate_contains(m: Seq<(Seq<u8>, Seq<u8>)>, es: Seq<(Seq<u8>, Seq<u8>)>, q: Seq<u8>)
    ensures
        map_contains(accumulate(m, es), q) <==> (map_contains(m, q) || declares(es, q)),
    decreases es.len(),
{
    if es.len() > 0 {
        lemma_accumulate_contains(m, es.drop_last(), q);
        lemma_insert_contains(accumulate(m, es.drop_last()), es.last().0, es.last().1, q);
    }
}

/// After accumulating `es` onto `m`, a key `es` declares has the value of
/// its last entry in `es`; any other key keeps its value from `m`.
proof fn lemma_accumulate_lookup(m: Seq<(Seq<u8>, Seq<u8>)>, es: Seq<(Seq<u8>, Seq<u8>)>, q: Seq<u8>)
    ensures
        map_lookup(accumulate(m, es), q) == if declares(es, q) {
            last_value(es, q)
        } else {
            map_lookup(m, q)
        },
    decreases es.len(),
{
    if es.len() > 0 {
        lemma_accumulate_lookup(m, es.drop_last(), q);
        lemma_insert_lookup(accumulate(m, es.drop_last()), es.last().0, es.last().1, q);
    }
}

proof fn lemma_accumulate_concat(
    m: Seq<(Seq<u8>, Seq<u8>)>,
    es1: Seq<(Seq<u8>, Seq<u8>)>,
    es2: Seq<(Seq<u8>, Seq<u8>)>,
)
    ensures
        accumulate(m, es1 + es2) == accumulate(accumulate(m, es1), es2),
    decreases es2.len(),
{
    if es2.len() == 0 {
        assert(es1 + es2 =~= es1);
    } else {
        lemma_accumulate_concat(m, es1, es2.drop_last());
        assert((es1 + es2).drop_last() =~= es1 + es2.drop_last());
        assert((es1 + es2).last() == es2.last());
    }
}

proof fn lemma_env_entries_concat(ls1: Seq<Seq<u8>>, ls2: Seq<Seq<u8>>)
    ensures
        env_entries(ls1 + ls2) == env_entries(ls1) + env_entries(ls2),
    decreases ls2.len(),
{
    if ls2.len() == 0 {
        assert(ls1 + ls2 =~= ls1);
        assert(env_entries(ls1) + env_entries(ls2) =~= env_entries(ls1));
    } else {
        lemma_env_entries_concat(ls1, ls2.drop_last());
        assert((ls1 + ls2).drop_last() =~= ls1 + ls2.drop_last());
        assert((ls1 + ls2).last() == ls2.last());
        match env_line_entry(ls2.last()) {
            Some(e) => {
                assert(env_entries(ls1) + env_entries(ls2)
                    =~= (env_entries(ls1) + env_entries(ls2.drop_last())).push(e));
            },
            None => {},
        }
    }
}

/// What holds of every entry the template grammar can produce: the key holds
/// no line feed and no `=` and does not start with `#`; the value holds no
/// line feed, no `#` and no space. Such an entry renders as one `key=value`
/// line that the destination-file grammar reads back.
pub open spec fn template_entry_wf(e: (Seq<u8>, Seq<u8>)) -> bool {
    (forall|j: int| 0 <= j < e.0.len() ==> #[trigger] e.0[j] != NL && e.0[j] != EQ) && (e.0.len() > 0
        ==> e.0[0] != HASH) && (forall|j: int|
        0 <= j < e.1.len() ==> #[trigger] e.1[j] != NL && e.1[j] != HASH && e.1[j] != SPACE)
}

/// Whether every entry of `m` is well-formed.
pub open spec fn all_wf(m: Seq<(Seq<u8>, Seq<u8>)>) -> bool {
    forall|i: int| 0 <= i < m.len() ==> template_entry_wf(#[trigger] m[i])
}

proof fn lemma_template_line_entry_wf(line: Seq<u8>)
    requires
        forall|j: int| 0 <= j < line.len() ==> #[trigger] line[j] != NL,
    ensures
        template_line_entry(line) is Some ==> template_entry_wf(template_line_entry(line)->Some_0),
{
    if !(line.len() > 0 && line[0] == HASH) {
        lemma_find_props(line, EQ);
        let i = find(line, EQ);
        if 0 < i && i < line.len() {
            let e = template_line_entry(line)->Some_0;
            let rest = line.subrange(i + 1, line.len() as int);
            lemma_find_props(rest, SPACE);
            lemma_find_props(rest, HASH);
            assert forall|j: int| 0 <= j < e.0.len() implies #[trigger] e.0[j] != NL && e.0[j]
                != EQ by {
                assert(e.0[j] == line[j]);
            }
            assert(e.0.len() > 0 ==> e.0[0] == line[0]);
            assert forall|j: int| 0 <= j < e.1.len() implies #[trigger] e.1[j] != NL && e.1[j]
                != HASH && e.1[j] != SPACE by {
                assert(e.1[j] == rest[j]);
                assert(rest[j] == line[i + 1 + j]);
            }
        }
    }
}

proof fn lemma_template_entries_wf(ls: Seq<Seq<u8>>)
    requires
        forall|k: int, j: int|
            0 <= k < ls.len() && 0 <= j < ls[k].len() ==> #[trigger] ls[k][j] != NL,
    ensures
        all_wf(template_entries(ls)),
    decreases ls.len(),
{
    if ls.len() > 0 {
        assert forall|k: int, j: int|
            0 <= k < ls.drop_last().len() && 0 <= j < ls.drop_last()[k].len()
            implies #[trigger] ls.drop_last()[k][j] != NL by {
            assert(ls.drop_last()[k] == ls[k]);
        }
        lemma_template_entries_wf(ls.drop_last());
        assert(forall|j: int| 0 <= j < ls.last().len() ==> #[trigger] ls.last()[j] != NL) by {
            assert(ls[ls.len() - 1] == ls.last());
        }
        lemma_template_line_entry_wf(ls.last());
        let front = template_entries(ls.drop_last());
        match template_line_entry(ls.last()) {
            Some(e) => {
                assert forall|i: int| 0 <= i < front.push(e).len()
                    implies template_entry_wf(#[trigger] front.push(e)[i]) by {
                    if i < front.len() {
                        assert(front.push(e)[i] == front[i]);
                    } else {
                        assert(front.push(e)[i] == e);
                    }
                }
            },
            None => {},
        }
    }
}

proof fn lemma_insert_all_wf(m: Seq<(Seq<u8>, Seq<u8>)>, k: Seq<u8>, v: Seq<u8>)
    requires
        all_wf(m),
        template_entry_wf((k, v)),
    ensures
        all_wf(map_insert(m, k, v)),
    decreases m.len(),
{
    let r = map_insert(m, k, v);
    if m.len() == 0 {
        assert(r == seq![(k, v)]);
        assert(forall|i: int| 0 <= i < r.len() ==> #[trigger] r[i] == (k, v));
    } else if m[0].0 == k {
        assert forall|i: int| 0 <= i < r.len() implies template_entry_wf(#[trigger] r[i]) by {
            if i == 0 {
                assert(r[0] == (k, v));
            } else {
                assert(r[i] == m.drop_first()[i - 1]);
                assert(m.drop_first()[i - 1] == m[i]);
            }
        }
    } else {
        assert forall|i: int| 0 <= i < m.drop_first().len()
            implies template_entry_wf(#[trigger] m.drop_first()[i]) by {
            assert(m.drop_first()[i] == m[i + 1]);
        }
        lemma_insert_all_wf(m.drop_first(), k, v);
        let r2 = map_insert(m.drop_first(), k, v);
        assert forall|i: int| 0 <= i < r.len() implies template_entry_wf(#[trigger] r[i]) by {
            if i == 0 {
                assert(r[0] == m[0]);
            } else {
                assert(r[i] == r2[i - 1]);
            }
        }
    }
}

proof fn lemma_accumulate_all_wf(m: Seq<(Seq<u8>, Seq<u8>)>, es: Seq<(Seq<u8>, Seq<u8>)>)
    requires
        all_wf(m),
        all_wf(es),
    ensures
        all_wf(accumulate(m, es)),
    decreases es.len(),
{
    if es.len() > 0 {
        assert forall|i: int| 0 <= i < es.drop_last().len()
            implies template_entry_wf(#[trigger] es.drop_last()[i]) by {
            assert(es.drop_last()[i] == es[i]);
        }
        lemma_accumulate_all_wf(m, es.drop_last());
        assert(template_entry_wf(es.last())) by {
            assert(es[es.len() - 1] == es.last());
        }
        assert(template_entry_wf((es.last().0, es.last().1)));
        lemma_insert_all_wf(accumulate(m, es.drop_last()), es.last().0, es.last().1);
    }
}

/// Every entry of the accumulated template mapping is well-formed.
proof fn lemma_template_map_wf(ts: Seq<Seq<u8>>)
    ensures
        all_wf(template_map(ts)),
    decreases ts.len(),
{
    if ts.len() > 0 {
        lemma_template_map_wf(ts.drop_last());
        lemma_lines_no_nl(ts.last());
        let tls = template_lines(ts.last());
        assert forall|k: int, j: int| 0 <= k < tls.len() && 0 <= j < tls[k].len()
            implies #[trigger] tls[k][j] != NL by {
            let l = lines(ts.last())[k];
            assert(l[j] != NL);
            if k < tls.len() - 1 || (ts.last().len() > 0 && ts.last().last() == NL) {
                assert(tls[k] == chomp_cr(l));
                assert(tls[k][j] == l[j]);
            } else {
                assert(tls[k] == l);
            }
        }
        lemma_template_entries_wf(tls);
        lemma_accumulate_all_wf(template_map(ts.drop_last()), template_entries(tls));
    }
}

/// Every new entry comes from the template mapping and its key is not yet
/// bound by the existing mapping.
proof fn lemma_new_entries_props(tm: Seq<(Seq<u8>, Seq<u8>)>, em: Seq<(Seq<u8>, Seq<u8>)>)
    ensures
        forall|i: int|
            0 <= i < new_entries(tm, em).len() ==> !map_contains(
                em,
                (#[trigger] new_entries(tm, em)[i]).0,
            ) && exists|j: int| 0 <= j < tm.len() && new_entries(tm, em)[i] == #[trigger] tm[j],
    decreases tm.len(),
{
    if tm.len() > 0 {
        lemma_new_entries_props(tm.drop_last(), em);
        let front = new_entries(tm.drop_last(), em);
        let ne = new_entries(tm, em);
        assert forall|i: int| 0 <= i < ne.len() implies !map_contains(em, (#[trigger] ne[i]).0)
            && exists|j: int| 0 <= j < tm.len() && ne[i] == #[trigger] tm[j] by {
            if i < front.len() {
                assert(ne[i] == front[i]);
                let j = choose|j: int|
                    0 <= j < tm.drop_last().len() && front[i] == #[trigger] tm.drop_last()[j];
                assert(tm[j] == tm.drop_last()[j]);
            } else {
                assert(ne[i] == tm.last());
                assert(tm[tm.len() - 1] == tm.last());
            }
        }
    }
}

/// A template key the existing mapping does not bind appears among the new
/// entries.
proof fn lemma_new_entries_complete(tm: Seq<(Seq<u8>, Seq<u8>)>, em: Seq<(Seq<u8>, Seq<u8>)>)
    ensures
        forall|i: int|
            0 <= i < tm.len() && !map_contains(em, (#[trigger] tm[i]).0) ==> exists|j: int|
                0 <= j < new_entries(tm, em).len() && (#[trigger] new_entries(tm, em)[j]).0
                    == tm[i].0,
    decreases tm.len(),
{
    if tm.len() > 0 {
        lemma_new_entries_complete(tm.drop_last(), em);
        let front = new_entries(tm.drop_last(), em);
        let ne = new_entries(tm, em);
        assert forall|i: int| 0 <= i < tm.len() && !map_contains(em, (#[trigger] tm[i]).0)
            implies exists|j: int| 0 <= j < ne.len() && (#[trigger] ne[j]).0 == tm[i].0 by {
            if i < tm.len() - 1 {
                assert(tm.drop_last()[i] == tm[i]);
                let j = choose|j: int|
                    0 <= j < front.len() && (#[trigger] front[j]).0 == tm.drop_last()[i].0;
                if map_contains(em, tm.last().0) {
                    assert(ne[j] == front[j]);
                } else {
                    assert(ne[j] == front[j]);
                }
            } else {
                assert(tm[i] == tm.last());
                assert(ne == front.push(tm.last()));
                assert(ne[ne.len() - 1] == tm.last());
            }
        }
    }
}

/// When the existing mapping binds every template key, nothing is new.
proof fn lemma_new_entries_empty(tm: Seq<(Seq<u8>, Seq<u8>)>, em: Seq<(Seq<u8>, Seq<u8>)>)
    requires
        forall|i: int| 0 <= i < tm.len() ==> map_contains(em, (#[trigger] tm[i]).0),
    ensures
        new_entries(tm, em) == Seq::<(Seq<u8>, Seq<u8>)>::empty(),
    decreases tm.len(),
{
    if tm.len() > 0 {
        assert forall|i: int| 0 <= i < tm.drop_last().len()
            implies map_contains(em, (#[trigger] tm.drop_last()[i]).0) by {
            assert(tm.drop_last()[i] == tm[i]);
        }
        lemma_new_entries_empty(tm.drop_last(), em);
        assert(map_contains(em, tm.last().0)) by {
            assert(tm[tm.len() - 1] == tm.last());
        }
    }
}

/// Rendered output is newline-terminated whenever it is non-empty.
proof fn lemma_render_last_nl(es: Seq<(Seq<u8>, Seq<u8>)>)
    requires
        es.len() > 0,
    ensures
        render(es).len() > 0,
        render(es).last() == NL,
    decreases es.len(),
{
    let l = line_of(es.last().0, es.last().1);
    assert(l.len() > 0 && l.last() == NL);
    assert(render(es).last() == l.last());
}

/// Rendered output never starts with a line feed: the first byte is the
/// first key byte, or `=` for an empty key.
proof fn lemma_render_first(es: Seq<(Seq<u8>, Seq<u8>)>)
    requires
        all_wf(es),
        es.len() > 0,
    ensures
        render(es).len() > 0,
        render(es)[0] != NL,
    decreases es.len(),
{
    lemma_render_last_nl(es);
    let front = es.drop_last();
    if front.len() == 0 {
        let e = es.last();
        assert(template_entry_wf(e)) by {
            assert(es[es.len() - 1] == es.last());
        }
        let l = line_of(e.0, e.1);
        assert(render(front) =~= Seq::<u8>::empty());
        assert(render(es) =~= l);
        if e.0.len() > 0 {
            assert(l[0] == e.0[0]);
        } else {
            assert(l[0] == EQ);
        }
    } else {
        assert forall|i: int| 0 <= i < front.len()
            implies template_entry_wf(#[trigger] front[i]) by {
            assert(front[i] == es[i]);
        }
        lemma_render_first(front);
        lemma_render_last_nl(front);
        assert(render(es)[0] == render(front)[0]);
    }
}

/// A single line with no inner line feed, terminated, reads back as itself.
proof fn lemma_lines_one(u: Seq<u8>)
    requires
        forall|j: int| 0 <= j < u.len() ==> #[trigger] u[j] != NL,
    ensures
        lines(u + seq![NL]) == seq![u],
    decreases u.len(),
{
    let w = u + seq![NL];
    assert(w[u.len() as int] == NL);
    lemma_find_is(w, NL, u.len() as int);
    assert(w.subrange(0, u.len() as int) =~= u);
    assert(w.subrange(u.len() as int + 1, w.len() as int) =~= Seq::<u8>::empty());
    assert(lines(Seq::<u8>::empty()) =~= Seq::<Seq<u8>>::empty());
    assert(lines(w) =~~= seq![u]);
}

/// The text a well-formed entry renders as, without its terminator.
pub open spec fn key_line(e: (Seq<u8>, Seq<u8>)) -> Seq<u8> {
    e.0 + seq![EQ] + e.1
}

/// Rendered entries read back as one line each.
proof fn lemma_lines_render(es: Seq<(Seq<u8>, Seq<u8>)>)
    requires
        all_wf(es),
    ensures
        lines(render(es)) == Seq::new(es.len(), |i: int| key_line(es[i])),
    decreases es.len(),
{
    if es.len() == 0 {
        assert(render(es) == Seq::<u8>::empty());
        assert(lines(Seq::<u8>::empty()) =~= Seq::<Seq<u8>>::empty());
        assert(lines(render(es)) =~~= Seq::new(es.len(), |i: int| key_line(es[i])));
    } else {
        let front = es.drop_last();
        let e = es.last();
        assert(template_entry_wf(e)) by {
            assert(es[es.len() - 1] == es.last());
        }
        assert forall|i: int| 0 <= i < front.len()
            implies template_entry_wf(#[trigger] front[i]) by {
            assert(front[i] == es[i]);
        }
        lemma_lines_render(front);
        let l = line_of(e.0, e.1);
        assert forall|j: int| 0 <= j < key_line(e).len() implies #[trigger] key_line(e)[j]
            != NL by {
            if j < e.0.len() {
                assert(key_line(e)[j] == e.0[j]);
            } else if j == e.0.len() {
                assert(key_line(e)[j] == EQ);
            } else {
                assert(key_line(e)[j] == e.1[j - e.0.len() - 1]);
            }
        }
        lemma_lines_one(key_line(e));
        assert(l =~= key_line(e) + seq![NL]);
        if front.len() == 0 {
            assert(render(front) =~= Seq::<u8>::empty());
            assert(render(es) =~= l);
            assert(lines(render(es)) =~~= Seq::new(es.len(), |i: int| key_line(es[i])));
        } else {
            lemma_render_last_nl(front);
            lemma_lines_append(render(front), l);
            assert(render(es) == render(front) + l);
            assert(lines(render(es)) =~~= Seq::new(es.len(), |i: int| key_line(es[i])));
        }
    }
}

/// The destination-file grammar reads a rendered well-formed entry back as
/// its key and value, whitespace-trimmed.
proof fn lemma_env_reads_rendered(e: (Seq<u8>, Seq<u8>))
    requires
        template_entry_wf(e),
    ensures
        env_line_entry(key_line(e)) == Some((trim(e.0), trim(e.1))),
{
    let l = key_line(e);
    assert(l[e.0.len() as int] == EQ);
    if e.0.len() > 0 {
        assert(l[0] == e.0[0]);
    } else {
        assert(l[0] == EQ);
    }
    assert forall|j: int| 0 <= j < e.0.len() implies l[j] != EQ by {
        assert(l[j] == e.0[j]);
    }
    lemma_find_is(l, EQ, e.0.len() as int);
    assert(l.subrange(0, e.0.len() as int) =~= e.0);
    let rest = l.subrange(e.0.len() as int + 1, l.len() as int);
    assert(rest =~= e.1);
    assert forall|j: int| 0 <= j < rest.len() implies rest[j] != HASH by {
        assert(rest[j] == e.1[j]);
    }
    lemma_find_is(rest, HASH, rest.len() as int);
    assert(rest.subrange(0, rest.len() as int) =~= e.1);
}

/// The entries read back from rendered output: each rendered entry, with its
/// key and value whitespace-trimmed.
pub open spec fn rescan_of(es: Seq<(Seq<u8>, Seq<u8>)>) -> Seq<(Seq<u8>, Seq<u8>)> {
    Seq::new(es.len(), |i: int| (trim(es[i].0), trim(es[i].1)))
}

proof fn lemma_env_entries_of_key_lines(es: Seq<(Seq<u8>, Seq<u8>)>)
    requires
        all_wf(es),
    ensures
        env_entries(Seq::new(es.len(), |i: int| key_line(es[i]))) == rescan_of(es),
    decreases es.len(),
{
    let ls = Seq::new(es.len(), |i: int| key_line(es[i]));
    if es.len() == 0 {
        assert(env_entries(ls) =~~= rescan_of(es));
    } else {
        let front = es.drop_last();
        assert forall|i: int| 0 <= i < front.len()
            implies template_entry_wf(#[trigger] front[i]) by {
            assert(front[i] == es[i]);
        }
        lemma_env_entries_of_key_lines(front);
        assert(ls.drop_last() =~= Seq::new(front.len(), |i: int| key_line(front[i])));
        assert(template_entry_wf(es.last())) by {
            assert(es[es.len() - 1] == es.last());
        }
        lemma_env_reads_rendered(es.last());
        assert(ls.last() == key_line(es.last()));
        assert(env_entries(ls) =~~= rescan_of(es));
    }
}

/// One run changes the destination's lines by appending the rendered lines,
/// whole, after the existing ones.
proof fn lemma_merged_lines(existing: Seq<u8>, ts: Seq<Seq<u8>>)
    ensures
        lines(merged(existing, ts)) == lines(existing)
            + lines(render(new_entries(template_map(ts), env_map_of(existing)))),
{
    let body = render(new_entries(template_map(ts), env_map_of(existing)));
    if needs_newline(existing) {
        assert(merged(existing, ts) =~= (existing + seq![NL]) + body);
        lemma_lines_terminate(existing);
        assert(existing.push(NL) =~= existing + seq![NL]);
        assert((existing + seq![NL]).last() == NL);
        lemma_lines_append(existing + seq![NL], body);
        assert(lines(merged(existing, ts)) =~~= lines(existing) + lines(body));
    } else if existing.len() == 0 {
        assert(existing =~= Seq::<u8>::empty());
        assert(lines(Seq::<u8>::empty()) =~= Seq::<Seq<u8>>::empty());
        assert(merged(existing, ts) =~= body);
        assert(lines(merged(existing, ts)) =~~= lines(existing) + lines(body));
    } else {
        assert(existing.last() == NL);
        assert(merged(existing, ts) =~= existing + body);
        lemma_lines_append(existing, body);
        assert(lines(merged(existing, ts)) =~~= lines(existing) + lines(body));
    }
}

/// Scanning the destination after one run reads the old mapping first, then
/// the appended entries with trimmed keys and values.
proof fn lemma_env_map_merged(existing: Seq<u8>, ts: Seq<Seq<u8>>)
    ensures
        env_map_of(merged(existing, ts)) == accumulate(
            env_map_of(existing),
            rescan_of(new_entries(template_map(ts), env_map_of(existing))),
        ),
{
    let tm = template_map(ts);
    let em = env_map_of(existing);
    let ne = new_entries(tm, em);
    lemma_merged_lines(existing, ts);
    lemma_template_map_wf(ts);
    lemma_new_entries_props(tm, em);
    assert forall|i: int| 0 <= i < ne.len() implies template_entry_wf(#[trigger] ne[i]) by {
        let j = choose|j: int| 0 <= j < tm.len() && ne[i] == #[trigger] tm[j];
        assert(template_entry_wf(tm[j]));
    }
    lemma_lines_render(ne);
    lemma_env_entries_of_key_lines(ne);
    lemma_env_entries_concat(lines(existing), lines(render(ne)));
    lemma_accumulate_concat(
        Seq::empty(),
        env_entries(lines(existing)),
        env_entries(lines(render(ne))),
    );
}

/// A run only appends: the old contents stay in place, byte for byte,
/// whatever the templates hold.
pub proof fn lemma_run_only_appends(existing: Seq<u8>, ts: Seq<Seq<u8>>)
    ensures
        merged(existing, ts).len() >= existing.len(),
        merged(existing, ts).subrange(0, existing.len() as int) == existing,
{
    assert(merged(existing, ts).subrange(0, existing.len() as int) =~= existing);
}

/// Append-only: a key the destination file already defines keeps its exact
/// value through a run, whatever the templates declare for it; and the old
/// contents stay in place, byte for byte. The templates' keys must carry no
/// surrounding whitespace, since the destination scanner trims what a key
/// with such whitespace would leave behind.
pub proof fn lemma_append_only(existing: Seq<u8>, ts: Seq<Seq<u8>>, q: Seq<u8>)
    requires
        map_contains(env_map_of(existing), q),
        forall|i: int|
            0 <= i < template_map(ts).len() ==> trim((#[trigger] template_map(ts)[i]).0)
                == template_map(ts)[i].0,
    ensures
        merged(existing, ts).subrange(0, existing.len() as int) == existing,
        map_contains(env_map_of(merged(existing, ts)), q),
        map_lookup(env_map_of(merged(existing, ts)), q) == map_lookup(env_map_of(existing), q),
{
    let tm = template_map(ts);
    let em = env_map_of(existing);
    let ne = new_entries(tm, em);
    let rs = rescan_of(ne);
    assert(merged(existing, ts).subrange(0, existing.len() as int) =~= existing);
    lemma_env_map_merged(existing, ts);
    lemma_new_entries_props(tm, em);
    assert forall|i: int| 0 <= i < rs.len() implies (#[trigger] rs[i]).0 == ne[i].0
        && !map_contains(em, rs[i].0) by {
        let j = choose|j: int| 0 <= j < tm.len() && ne[i] == #[trigger] tm[j];
        assert(trim(tm[j].0) == tm[j].0);
    }
    lemma_declares_exists(rs, q);
    if declares(rs, q) {
        let i = choose|i: int| 0 <= i < rs.len() && (#[trigger] rs[i]).0 == q;
        assert(!map_contains(em, rs[i].0));
        assert(false);
    }
    lemma_accumulate_contains(em, rs, q);
    lemma_accumulate_lookup(em, rs, q);
}

/// Idempotence: a second run with the same templates appends nothing, so the
/// destination file is unchanged after it. The templates' keys must carry no
/// surrounding whitespace, since the destination scanner trims keys when it
/// reads the first run's output back.
pub proof fn lemma_merge_idempotent(existing: Seq<u8>, ts: Seq<Seq<u8>>)
    requires
        forall|i: int|
            0 <= i < template_map(ts).len() ==> trim((#[trigger] template_map(ts)[i]).0)
                == template_map(ts)[i].0,
    ensures
        appended_text(merged(existing, ts), ts) == Seq::<u8>::empty(),
        merged(merged(existing, ts), ts) == merged(existing, ts),
{
    let tm = template_map(ts);
    let em = env_map_of(existing);
    let ne = new_entries(tm, em);
    let rs = rescan_of(ne);
    let body = render(ne);
    let app = appended_text(existing, ts);
    let m1 = merged(existing, ts);
    lemma_env_map_merged(existing, ts);
    let em1 = env_map_of(m1);
    lemma_new_entries_props(tm, em);
    lemma_new_entries_complete(tm, em);
    assert forall|i: int| 0 <= i < tm.len() implies map_contains(em1, (#[trigger] tm[i]).0) by {
        lemma_accumulate_contains(em, rs, tm[i].0);
        if !map_contains(em, tm[i].0) {
            let j = choose|j: int| 0 <= j < ne.len() && (#[trigger] ne[j]).0 == tm[i].0;
            let j2 = choose|j2: int| 0 <= j2 < tm.len() && ne[j] == #[trigger] tm[j2];
            assert(trim(tm[j2].0) == tm[j2].0);
            assert(rs[j].0 == tm[i].0);
            lemma_declares_exists(rs, tm[i].0);
        }
    }
    lemma_new_entries_empty(tm, em1);
    assert(render(new_entries(tm, em1)) == Seq::<u8>::empty());
    if app.len() == 0 {
        assert(m1 =~= existing);
        assert(!needs_newline(existing)) by {
            if needs_newline(existing) {
                assert(app == seq![NL] + body);
            }
        }
        assert(!needs_newline(m1));
    } else {
        assert(m1.len() > 0 && m1.last() == app.last()) by {
            assert(m1[m1.len() - 1] == app[app.len() - 1]);
        }
        if needs_newline(existing) {
            assert(app == seq![NL] + body);
            if body.len() == 0 {
                assert(app.last() == NL);
            } else {
                assert(ne.len() > 0);
                lemma_render_last_nl(ne);
                assert(app.last() == body.last());
            }
        } else {
            assert(app == body);
            assert(ne.len() > 0);
            lemma_render_last_nl(ne);
        }
        assert(!needs_newline(m1));
    }
    assert(appended_text(m1, ts) =~= Seq::<u8>::empty());
    assert(merged(m1, ts) =~= m1);
}

/// Newline safety: when the destination's last byte is not a line feed, the
/// new contents are the old bytes, exactly one line feed, then the rendered
/// lines, which never begin with a line feed of their own; no existing line
/// changes.
pub proof fn lemma_newline_safety(existing: Seq<u8>, ts: Seq<Seq<u8>>)
    requires
        needs_newline(existing),
    ensures
        merged(existing, ts) == existing + seq![NL]
            + render(new_entries(template_map(ts), env_map_of(existing))),
        render(new_entries(template_map(ts), env_map_of(existing))).len() > 0 ==> render(
            new_entries(template_map(ts), env_map_of(existing)),
        )[0] != NL,
        lines(merged(existing, ts)) == lines(existing)
            + lines(render(new_entries(template_map(ts), env_map_of(existing)))),
{
    let tm = template_map(ts);
    let em = env_map_of(existing);
    let ne = new_entries(tm, em);
    let body = render(ne);
    assert(merged(existing, ts) =~= existing + seq![NL] + body);
    if body.len() > 0 {
        assert(ne.len() > 0);
        lemma_template_map_wf(ts);
        lemma_new_entries_props(tm, em);
        assert forall|i: int| 0 <= i < ne.len() implies template_entry_wf(#[trigger] ne[i]) by {
            let j = choose|j: int| 0 <= j < tm.len() && ne[i] == #[trigger] tm[j];
            assert(template_entry_wf(tm[j]));
        }
        lemma_render_first(ne);
    }
    lemma_merged_lines(existing, ts);
}

/// Last template wins: for a key the last template declares, the value the
/// whole run takes is the one that template alone would give.
pub proof fn lemma_last_template_wins(ts: Seq<Seq<u8>>, t: Seq<u8>, k: Seq<u8>)
    requires
        declares(template_entries(template_lines(t)), k),
    ensures
        map_lookup(template_map(ts.push(t)), k) == map_lookup(
            accumulate(Seq::empty(), template_entries(template_lines(t))),
            k,
        ),
{
    let es = template_entries(template_lines(t));
    assert(ts.push(t).drop_last() =~= ts);
    assert(ts.push(t).last() == t);
    assert(template_map(ts.push(t)) == accumulate(template_map(ts), es));
    lemma_accumulate_lookup(template_map(ts), es, k);
    lemma_accumulate_lookup(Seq::empty(), es, k);
}

/// Comment skipping: a line whose first byte is `#` contributes no entry,
/// under either grammar.
pub proof fn lemma_comment_line_no_entry(line: Seq<u8>)
    requires
        line.len() > 0,
        line[0] == HASH,
    ensures
        template_line_entry(line) is None,
        env_line_entry(line) is None,
{
}

/// Value truncation: a template line `key=rest` with a non-empty key takes
/// as value the prefix of `rest` before its first space or `#`, and the
/// whole of `rest` when neither occurs.
pub proof fn lemma_template_value_cut(k: Seq<u8>, rest: Seq<u8>)
    requires
        k.len() > 0,
        forall|j: int| 0 <= j < k.len() ==> #[trigger] k[j] != EQ,
        k[0] != HASH,
    ensures
        ({
            let sp = find(rest, SPACE);
            let hs = find(rest, HASH);
            let cut = if sp <= hs {
                sp
            } else {
                hs
            };
            template_line_entry(k + seq![EQ] + rest) == Some((k, rest.subrange(0, cut)))
        }),
{
    let line = k + seq![EQ] + rest;
    assert(line[0] == k[0]);
    assert(line[k.len() as int] == EQ);
    assert forall|j: int| 0 <= j < k.len() implies line[j] != EQ by {
        assert(line[j] == k[j]);
    }
    lemma_find_is(line, EQ, k.len() as int);
    assert(line.subrange(0, k.len() as int) =~= k);
    assert(line.subrange(k.len() as int + 1, line.len() as int) =~= rest);
}

} // verus!
