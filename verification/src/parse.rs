//! The two line grammars: template lines, whose key is taken verbatim and
//! whose value is cut at the first space or comment marker, and
//! destination-file lines, whose key and value are whitespace-trimmed after
//! the value loses any inline comment.

use vstd::prelude::*;
use crate::bytes::{NL, CR, EQ, HASH, SPACE, find, trim, find_in, copy_range, trim_range};
use crate::env_map::{EnvMap, map_insert};
use crate::lines::{lines, split_lines};

verus! {

/// `l` with one trailing carriage return removed.
pub open spec fn chomp_cr(l: Seq<u8>) -> Seq<u8> {
    if l.len() > 0 && l.last() == CR {
        l.drop_last()
    } else {
        l
    }
}

/// The template's physical lines as a buffered line reader hands them out:
/// the carriage return of a CRLF terminator is stripped with the terminator,
/// while an unterminated final line keeps a lone trailing carriage return.
pub open spec fn template_lines(s: Seq<u8>) -> Seq<Seq<u8>> {
    Seq::new(
        lines(s).len(),
        |i: int|
            if i < lines(s).len() - 1 || (s.len() > 0 && s.last() == NL) {
                chomp_cr(lines(s)[i])
            } else {
                lines(s)[i]
            },
    )
}

/// The contribution of one template line: none for a comment line (first
/// byte `#`), a line without `=`, or a line whose text before the first `=`
/// is empty, since a variable name is non-empty; otherwise the text before
/// the first `=`, verbatim, maps to the text after it cut at the first space
/// or `#`.
pub open spec fn template_line_entry(line: Seq<u8>) -> Option<(Seq<u8>, Seq<u8>)> {
    if line.len() > 0 && line[0] == HASH {
        None
    } else {
        let i = find(line, EQ);
        if i == 0 || i == line.len() {
            None
        } else {
            let rest = line.subrange(i + 1, line.len() as int);
            let sp = find(rest, SPACE);
            let hs = find(rest, HASH);
            let cut = if sp <= hs {
                sp
            } else {
                hs
            };
            Some((line.subrange(0, i), rest.subrange(0, cut)))
        }
    }
}

/// The contribution of one destination-file line: none for a comment line or
/// a line without `=`; otherwise the text before the first `=` and the text
/// after it cut at the first `#`, both whitespace-trimmed.
pub open spec fn env_line_entry(line: Seq<u8>) -> Option<(Seq<u8>, Seq<u8>)> {
    if line.len() > 0 && line[0] == HASH {
        None
    } else {
        let i = find(line, EQ);
        if i == line.len() {
            None
        } else {
            let rest = line.subrange(i + 1, line.len() as int);
            Some((trim(line.subrange(0, i)), trim(rest.subrange(0, find(rest, HASH)))))
        }
    }
}

/// The entries the template grammar reads from `ls`, in line order.
pub open spec fn template_entries(ls: Seq<Seq<u8>>) -> Seq<(Seq<u8>, Seq<u8>)>
    decreases ls.len(),
{
    if ls.len() == 0 {
        Seq::empty()
    } else {
        let front = template_entries(ls.drop_last());
        match template_line_entry(ls.last()) {
            Some(e) => front.push(e),
            None => front,
        }
    }
}

/// The entries the destination-file grammar reads from `ls`, in line order.
pub open spec fn env_entries(ls: Seq<Seq<u8>>) -> Seq<(Seq<u8>, Seq<u8>)>
    decreases ls.len(),
{
    if ls.len() == 0 {
        Seq::empty()
    } else {
        let front = env_entries(ls.drop_last());
        match env_line_entry(ls.last()) {
            Some(e) => front.push(e),
            None => front,
        }
    }
}

/// `m` after inserting the entries of `es` in order; a later entry for the
/// same key overwrites an earlier value.
pub open spec fn accumulate(m: Seq<(Seq<u8>, Seq<u8>)>, es: Seq<(Seq<u8>, Seq<u8>)>) -> Seq<
    (Seq<u8>, Seq<u8>),
>
    decreases es.len(),
{
    if es.len() == 0 {
        m
    } else {
        map_insert(accumulate(m, es.drop_last()), es.last().0, es.last().1)
    }
}

/// Whether appended text must begin with a synthetic newline: the buffer is
/// non-empty and its last byte is not a line feed.
pub open spec fn needs_newline(s: Seq<u8>) -> bool {
    s.len() > 0 && s.last() != NL
}

/// Parse one template line, its terminator already stripped.
pub fn parse_template_line(line: &Vec<u8>) -> (r: Option<(Vec<u8>, Vec<u8>)>)
    ensures
        match r {
            Some(p) => template_line_entry(line@) == Some((p.0@, p.1@)),
            None => template_line_entry(line@) is None,
        },
{
    if line.len() > 0 && line[0] == HASH {
        return None;
    }
    let i = find_in(line, 0, line.len(), EQ);
    proof {
        assert(line@.subrange(0, line@.len() as int) =~= line@);
        assert(find(line@, EQ) == i);
    }
    if i == 0 || i == line.len() {
        return None;
    }
    let sp = find_in(line, i + 1, line.len(), SPACE);
    let hs = find_in(line, i + 1, line.len(), HASH);
    let cut = if sp <= hs {
        sp
    } else {
        hs
    };
    let key = copy_range(line, 0, i);
    let value = copy_range(line, i + 1, cut);
    proof {
        let rest = line@.subrange(i + 1, line@.len() as int);
        assert(find(rest, SPACE) == sp - (i + 1));
        assert(find(rest, HASH) == hs - (i + 1));
        assert(key@ =~= line@.subrange(0, i as int));
        assert(value@ =~= rest.subrange(
            0,
            if sp <= hs {
                sp - (i + 1)
            } else {
                hs - (i + 1)
            },
        ));
    }
    Some((key, value))
}

/// Parse one destination-file line, its line feed already stripped.
pub fn parse_env_line(line: &Vec<u8>) -> (r: Option<(Vec<u8>, Vec<u8>)>)
    ensures
        match r {
            Some(p) => env_line_entry(line@) == Some((p.0@, p.1@)),
            None => env_line_entry(line@) is None,
        },
{
    if line.len() > 0 && line[0] == HASH {
        return None;
    }
    let i = find_in(line, 0, line.len(), EQ);
    proof {
        assert(line@.subrange(0, line@.len() as int) =~= line@);
        assert(find(line@, EQ) == i);
    }
    if i == line.len() {
        return None;
    }
    let hs = find_in(line, i + 1, line.len(), HASH);
    let key = trim_range(line, 0, i);
    let value = trim_range(line, i + 1, hs);
    proof {
        let rest = line@.subrange(i + 1, line@.len() as int);
        assert(find(rest, HASH) == hs - (i + 1));
        assert(rest.subrange(0, hs - (i + 1)) =~= line@.subrange(i + 1, hs as int));
    }
    Some((key, value))
}

/// Read one template's contents into `variables`: every declaration the
/// template grammar finds is inserted in line order, a later line for the
/// same key overwriting the earlier value.
pub fn read_template(content: &Vec<u8>, variables: &mut EnvMap)
    ensures
        final(variables)@ == accumulate(
            old(variables)@,
            template_entries(template_lines(content@)),
        ),
{
    let ls = split_lines(content);
    let terminated = content.len() > 0 && content[content.len() - 1] == NL;
    let ghost lv = ls@.map_values(|l: Vec<u8>| l@);
    let ghost tlv = template_lines(content@);
    let mut idx: usize = 0;
    proof {
        assert(tlv.subrange(0, 0) =~= Seq::<Seq<u8>>::empty());
    }
    while idx < ls.len()
        invariant
            idx <= ls@.len(),
            lv == ls@.map_values(|l: Vec<u8>| l@),
            lv == lines(content@),
            tlv == template_lines(content@),
            tlv.len() == lv.len(),
            terminated == (content@.len() > 0 && content@.last() == NL),
            variables@ == accumulate(
                old(variables)@,
                template_entries(tlv.subrange(0, idx as int)),
            ),
        decreases ls@.len() - idx,
    {
        let line = &ls[idx];
        let mut end: usize = line.len();
        if (idx + 1 < ls.len() || terminated) && end > 0 && line[end - 1] == CR {
            end = end - 1;
        }
        let chomped = copy_range(line, 0, end);
        proof {
            if idx + 1 < ls.len() || terminated {
                assert(tlv[idx as int] == chomp_cr(lv[idx as int]));
                assert(chomped@ =~= chomp_cr(lv[idx as int]));
            } else {
                assert(tlv[idx as int] == lv[idx as int]);
                assert(chomped@ =~= lv[idx as int]);
            }
        }
        let ghost pre = template_entries(tlv.subrange(0, idx as int));
        let ghost entry = template_line_entry(tlv[idx as int]);
        let r = parse_template_line(&chomped);
        match r {
            Some(p) => {
                variables.insert(p.0, p.1);
            },
            None => {},
        }
        proof {
            let cur = tlv.subrange(0, idx as int + 1);
            assert(cur.drop_last() =~= tlv.subrange(0, idx as int));
            assert(cur.last() == tlv[idx as int]);
            match entry {
                Some(e) => {
                    assert(template_entries(cur) == pre.push(e));
                    let es = pre.push(e);
                    assert(es.drop_last() =~= pre);
                    assert(es.last() == e);
                    assert(accumulate(old(variables)@, es) == map_insert(
                        accumulate(old(variables)@, pre),
                        e.0,
                        e.1,
                    ));
                },
                None => {
                    assert(template_entries(cur) == pre);
                },
            }
        }
        idx = idx + 1;
    }
    proof {
        assert(tlv.subrange(0, tlv.len() as int) =~= tlv);
    }
}

/// Scan the destination file's current contents: its declarations become the
/// existing-variables mapping, and the flag reports whether appended text
/// must begin with a synthetic newline because the final line of the file is
/// unterminated.
pub fn scan_env(content: &Vec<u8>) -> (r: (EnvMap, bool))
    ensures
        r.0@ == accumulate(Seq::empty(), env_entries(lines(content@))),
        r.1 == needs_newline(content@),
{
    let add_line_break = content.len() > 0 && content[content.len() - 1] != NL;
    let mut variables = EnvMap::new();
    let ls = split_lines(content);
    let ghost lv = ls@.map_values(|l: Vec<u8>| l@);
    let mut idx: usize = 0;
    proof {
        assert(lv.subrange(0, 0) =~= Seq::<Seq<u8>>::empty());
    }
    while idx < ls.len()
        invariant
            idx <= ls@.len(),
            lv == ls@.map_values(|l: Vec<u8>| l@),
            lv == lines(content@),
            variables@ == accumulate(Seq::empty(), env_entries(lv.subrange(0, idx as int))),
        decreases ls@.len() - idx,
    {
        let ghost pre = env_entries(lv.subrange(0, idx as int));
        let ghost entry = env_line_entry(lv[idx as int]);
        let r = parse_env_line(&ls[idx]);
        match r {
            Some(p) => {
                variables.insert(p.0, p.1);
            },
            None => {},
        }
        proof {
            let cur = lv.subrange(0, idx as int + 1);
            assert(cur.drop_last() =~= lv.subrange(0, idx as int));
            assert(cur.last() == lv[idx as int]);
            match entry {
                Some(e) => {
                    assert(env_entries(cur) == pre.push(e));
                    let es = pre.push(e);
                    assert(es.drop_last() =~= pre);
                    assert(es.last() == e);
                    assert(accumulate(Seq::empty(), es) == map_insert(
                        accumulate(Seq::empty(), pre),
                        e.0,
                        e.1,
                    ));
                },
                None => {
                    assert(env_entries(cur) == pre);
                },
            }
        }
        idx = idx + 1;
    }
    proof {
        assert(lv.subrange(0, lv.len() as int) =~= lv);
    }
    (variables, add_line_break)
}

} // verus!
