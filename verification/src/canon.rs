//! Canonical JSON encoding of a document: deterministic, minimally escaped,
//! integers in plain decimal.  Entries are emitted in stored order; the
//! expansion engine sorts every mapping's keys, so an expanded document
//! encodes to its canonical form with deterministic key order.

use vstd::calc;
use vstd::prelude::*;
use vstd::string::StrSliceExecFns;
use vstd::string::StringExecFns;
use crate::strings::{dec_int, i64_to_string};
use crate::value::{items_model, entries_model, Value, ValueModel};

verus! {

broadcast use {
    vstd::seq::axiom_seq_index_decreases,
    vstd::seq::axiom_seq_subrange_decreases,
    vstd::std_specs::vec::group_vec_axioms,
    crate::value::group_model_lemmas,
};

/// The hexadecimal digit character for `d` (lower case).
pub open spec fn hex_digit(d: int) -> char {
    if d < 10 {
        crate::strings::digit_char(d)
    } else if d == 10 {
        'a'
    } else if d == 11 {
        'b'
    } else if d == 12 {
        'c'
    } else if d == 13 {
        'd'
    } else if d == 14 {
        'e'
    } else {
        'f'
    }
}

fn hex_digit_exec(d: u32) -> (r: char)
    requires
        d < 16,
    ensures
        r == hex_digit(d as int),
{
    if d < 10 {
        crate::strings::digit_char_exec(d as u64)
    } else if d == 10 {
        'a'
    } else if d == 11 {
        'b'
    } else if d == 12 {
        'c'
    } else if d == 13 {
        'd'
    } else if d == 14 {
        'e'
    } else {
        'f'
    }
}

/// How one character is written inside a JSON string: the two-character
/// escapes of RFC 8785, `\u00..` for the other control characters, and the
/// character itself for everything else.
pub open spec fn json_escape_char(c: char) -> Seq<char> {
    if c == '"' {
        seq!['\\', '"']
    } else if c == '\\' {
        seq!['\\', '\\']
    } else if c == '\u{8}' {
        seq!['\\', 'b']
    } else if c == '\t' {
        seq!['\\', 't']
    } else if c == '\n' {
        seq!['\\', 'n']
    } else if c == '\u{c}' {
        seq!['\\', 'f']
    } else if c == '\r' {
        seq!['\\', 'r']
    } else if (c as u32) < 0x20 {
        seq!['\\', 'u', '0', '0', hex_digit((c as u32 / 16) as int), hex_digit((c as u32 % 16) as int)]
    } else {
        seq![c]
    }
}

/// A whole string's characters, escaped.
pub open spec fn json_escape(s: Seq<char>) -> Seq<char>
    decreases s.len(),
{
    if s.len() == 0 {
        Seq::<char>::empty()
    } else {
        json_escape_char(s[0]) + json_escape(s.drop_first())
    }
}

/// A JSON string literal: quoted, escaped.
pub open spec fn json_string(s: Seq<char>) -> Seq<char> {
    seq!['"'] + json_escape(s) + seq!['"']
}

/// The canonical JSON encoding of a document node.
pub open spec fn canon_json(v: ValueModel) -> Seq<char>
    decreases v, 1int,
{
    match v {
        ValueModel::Null => "null"@,
        ValueModel::Bool(b) => if b {
            "true"@
        } else {
            "false"@
        },
        ValueModel::Number(n) => dec_int(n),
        ValueModel::Str(s) => json_string(s),
        ValueModel::Sequence(items) => if items.len() == 0 {
            "[]"@
        } else {
            seq!['['] + canon_json(items[0]) + canon_items_rest(items.drop_first()) + seq![']']
        },
        ValueModel::Mapping(es) => if es.len() == 0 {
            "{}"@
        } else {
            seq!['{'] + json_string(es[0].0) + seq![':'] + canon_json(es[0].1) + canon_entries_rest(
                es.drop_first(),
            ) + seq!['}']
        },
    }
}

/// The remaining sequence items, each preceded by a comma.
pub open spec fn canon_items_rest(items: Seq<ValueModel>) -> Seq<char>
    decreases items, 0int,
{
    if items.len() == 0 {
        Seq::<char>::empty()
    } else {
        seq![','] + canon_json(items[0]) + canon_items_rest(items.drop_first())
    }
}

/// The remaining mapping entries, each preceded by a comma.
pub open spec fn canon_entries_rest(es: Seq<(Seq<char>, ValueModel)>) -> Seq<char>
    decreases es, 0int,
{
    if es.len() == 0 {
        Seq::<char>::empty()
    } else {
        seq![','] + json_string(es[0].0) + seq![':'] + canon_json(es[0].1) + canon_entries_rest(
            es.drop_first(),
        )
    }
}

/// Appends the escaped form of `s` to `out`.
#[verifier::loop_isolation(false)]
fn push_json_string(out: &mut String, s: &str)
    ensures
        final(out)@ == old(out)@ + json_string(s@),
{
    out.push('"');
    let slen = s.unicode_len();
    let mut i: usize = 0;
    proof {
        assert(s@.skip(0) =~= s@);
    }
    while i < slen
        invariant
            i <= slen,
            slen == s@.len(),
            out@ == old(out)@ + seq!['"'] + json_escape(s@.take(i as int)),
        decreases slen - i,
    {
        let c = s.get_char(i);
        let ghost pre = s@.take(i as int);
        if c == '"' {
            out.push('\\');
            out.push('"');
        } else if c == '\\' {
            out.push('\\');
            out.push('\\');
        } else if c == '\u{8}' {
            out.push('\\');
            out.push('b');
        } else if c == '\t' {
            out.push('\\');
            out.push('t');
        } else if c == '\n' {
            out.push('\\');
            out.push('n');
        } else if c == '\u{c}' {
            out.push('\\');
            out.push('f');
        } else if c == '\r' {
            out.push('\\');
            out.push('r');
        } else if (c as u32) < 0x20 {
            out.push('\\');
            out.push('u');
            out.push('0');
            out.push('0');
            out.push(hex_digit_exec((c as u32) / 16));
            out.push(hex_digit_exec((c as u32) % 16));
        } else {
            out.push(c);
        }
        i += 1;
        proof {
            lemma_json_escape_snoc(s@.take(i as int));
            assert(s@.take(i as int).drop_last() =~= pre);
            assert(s@.take(i as int).last() == c);
            assert(out@ =~= old(out)@ + seq!['"'] + json_escape(s@.take(i as int)));
        }
    }
    out.push('"');
    proof {
        assert(s@.take(slen as int) =~= s@);
        assert(out@ =~= old(out)@ + json_string(s@));
    }
}

/// `json_escape` grows at the end by the last character's escape.
proof fn lemma_json_escape_snoc(s: Seq<char>)
    requires
        s.len() > 0,
    ensures
        json_escape(s) == json_escape(s.drop_last()) + json_escape_char(s.last()),
    decreases s.len(),
{
    reveal_with_fuel(json_escape, 2);
    if s.len() == 1 {
        assert(s.drop_first() =~= Seq::<char>::empty());
        assert(s.drop_last() =~= Seq::<char>::empty());
        assert(json_escape(s) =~= json_escape_char(s[0]));
        assert(json_escape(s.drop_last()) + json_escape_char(s.last()) =~= json_escape_char(s[0]));
    } else {
        lemma_json_escape_snoc(s.drop_first());
        assert(s.drop_first().drop_last() =~= s.drop_last().drop_first());
        assert(s.drop_first().last() == s.last());
        assert(s.drop_last()[0] == s[0]);
        assert(s.drop_last().len() > 0);
        calc! {
            (==)
            json_escape(s); {}
            json_escape_char(s[0]) + json_escape(s.drop_first()); {}
            json_escape_char(s[0]) + (json_escape(s.drop_first().drop_last()) + json_escape_char(
                s.last(),
            )); {
                assert(json_escape_char(s[0]) + (json_escape(s.drop_first().drop_last())
                    + json_escape_char(s.last())) =~= (json_escape_char(s[0]) + json_escape(
                    s.drop_last().drop_first(),
                )) + json_escape_char(s.last()));
            }
            (json_escape_char(s[0]) + json_escape(s.drop_last().drop_first())) + json_escape_char(
                s.last(),
            ); {}
            json_escape(s.drop_last()) + json_escape_char(s.last());
        }
    }
}

/// Appends the canonical JSON encoding of `v` to `out`.
#[verifier::loop_isolation(false)]
#[verifier::rlimit(60)]
fn push_canon(out: &mut String, v: &Value)
    ensures
        final(out)@ == old(out)@ + canon_json(v.model()),
    decreases v,
{
    match v {
        Value::Null => {
            out.append("null");
        },
        Value::Bool(b) => {
            if *b {
                out.append("true");
            } else {
                out.append("false");
            }
        },
        Value::Number(n) => {
            let d = i64_to_string(*n);
            out.append(d.as_str());
        },
        Value::Str(s) => {
            push_json_string(out, s.as_str());
        },
        Value::Sequence(items) => {
            if items.len() == 0 {
                out.append("[]");
                proof {
                    assert(items_model(items@) =~= Seq::<ValueModel>::empty());
                }
            } else {
                out.push('[');
                proof {
                    assert(decreases_to!(*v => v->Sequence_0));
                }
                push_canon(out, &items[0]);
                let mut i: usize = 1;
                let ghost im = items_model(items@);
                proof {
                    assert(im[0] == items@[0].model());
                    assert(out@ =~= old(out)@ + seq!['['] + canon_json(im[0]) + joined_rest(im, 1));
                }
                while i < items.len()
                    invariant
                        1 <= i <= items@.len(),
                        out@ == old(out)@ + seq!['['] + canon_json(im[0]) + joined_rest(
                            im,
                            i as int,
                        ),
                    decreases items@.len() - i,
                {
                    out.push(',');
                    proof {
                        assert(decreases_to!(*v => v->Sequence_0));
                    }
                    push_canon(out, &items[i]);
                    i += 1;
                    proof {
                        lemma_joined_rest_snoc(im, i as int);
                        assert(out@ =~= old(out)@ + seq!['['] + canon_json(im[0]) + joined_rest(
                            im,
                            i as int,
                        ));
                    }
                }
                out.push(']');
                proof {
                    lemma_joined_rest_full(im);
                    assert(out@ =~= old(out)@ + canon_json(v.model()));
                }
            }
        },
        Value::Mapping(entries) => {
            if entries.len() == 0 {
                out.append("{}");
                proof {
                    assert(entries_model(entries@) =~= Seq::<(Seq<char>, ValueModel)>::empty());
                }
            } else {
                out.push('{');
                push_json_string(out, entries[0].0.as_str());
                out.push(':');
                proof {
                    assert(decreases_to!(*v => v->Mapping_0));
                }
                push_canon(out, &entries[0].1);
                let mut i: usize = 1;
                let ghost em = entries_model(entries@);
                proof {
                    assert(em[0] == (entries@[0].0@, entries@[0].1.model()));
                    assert(out@ =~= old(out)@ + seq!['{'] + json_string(em[0].0) + seq![':']
                        + canon_json(em[0].1) + joined_entries_rest(em, 1));
                }
                while i < entries.len()
                    invariant
                        1 <= i <= entries@.len(),
                        out@ == old(out)@ + seq!['{'] + json_string(em[0].0) + seq![':']
                            + canon_json(em[0].1) + joined_entries_rest(em, i as int),
                    decreases entries@.len() - i,
                {
                    out.push(',');
                    push_json_string(out, entries[i].0.as_str());
                    out.push(':');
                    proof {
                        assert(decreases_to!(*v => v->Mapping_0));
                    }
                    push_canon(out, &entries[i].1);
                    i += 1;
                    proof {
                        lemma_joined_entries_rest_snoc(em, i as int);
                        assert(out@ =~= old(out)@ + seq!['{'] + json_string(em[0].0) + seq![':']
                            + canon_json(em[0].1) + joined_entries_rest(em, i as int));
                    }
                }
                out.push('}');
                proof {
                    lemma_joined_entries_rest_full(em);
                    assert(out@ =~= old(out)@ + canon_json(v.model()));
                }
            }
        },
    }
}

/// The comma-joined encodings of items `1 .. i`.
spec fn joined_rest(im: Seq<ValueModel>, i: int) -> Seq<char>
    decreases i,
{
    if i <= 1 {
        Seq::<char>::empty()
    } else {
        joined_rest(im, i - 1) + seq![','] + canon_json(im[i - 1])
    }
}

/// `joined_rest` grows at the end.
proof fn lemma_joined_rest_snoc(im: Seq<ValueModel>, i: int)
    requires
        2 <= i,
    ensures
        joined_rest(im, i) == joined_rest(im, i - 1) + seq![','] + canon_json(im[i - 1]),
{
}

/// All items joined: `joined_rest` over the whole tail is
/// `canon_items_rest` of the tail.
proof fn lemma_joined_rest_full(im: Seq<ValueModel>)
    requires
        im.len() >= 1,
    ensures
        joined_rest(im, im.len() as int) == canon_items_rest(im.drop_first()),
{
    lemma_joined_rest_mid(im, 1);
}

/// `canon_items_rest` of the tail from `j` equals what remains to be joined.
proof fn lemma_joined_rest_mid(im: Seq<ValueModel>, j: int)
    requires
        1 <= j <= im.len(),
    ensures
        joined_rest(im, im.len() as int) == joined_rest(im, j) + canon_items_rest(
            im.skip(j),
        ),
    decreases im.len() - j,
{
    if j == im.len() {
        assert(im.skip(j) =~= Seq::<ValueModel>::empty());
        assert(joined_rest(im, j) + canon_items_rest(im.skip(j)) =~= joined_rest(im, j));
    } else {
        lemma_joined_rest_mid(im, j + 1);
        assert(im.skip(j)[0] == im[j]);
        assert(im.skip(j).drop_first() =~= im.skip(j + 1));
        assert(joined_rest(im, j + 1) =~= joined_rest(im, j) + seq![','] + canon_json(im[j]));
        assert(joined_rest(im, j) + (seq![','] + canon_json(im[j]) + canon_items_rest(im.skip(j + 1)))
            =~= (joined_rest(im, j) + seq![','] + canon_json(im[j])) + canon_items_rest(
            im.skip(j + 1),
        ));
    }
}

/// The comma-joined encodings of entries `1 .. i`.
spec fn joined_entries_rest(em: Seq<(Seq<char>, ValueModel)>, i: int) -> Seq<char>
    decreases i,
{
    if i <= 1 {
        Seq::<char>::empty()
    } else {
        joined_entries_rest(em, i - 1) + seq![','] + json_string(em[i - 1].0) + seq![':']
            + canon_json(em[i - 1].1)
    }
}

/// `joined_entries_rest` grows at the end.
proof fn lemma_joined_entries_rest_snoc(em: Seq<(Seq<char>, ValueModel)>, i: int)
    requires
        2 <= i,
    ensures
        joined_entries_rest(em, i) == joined_entries_rest(em, i - 1) + seq![','] + json_string(
            em[i - 1].0,
        ) + seq![':'] + canon_json(em[i - 1].1),
{
}

/// All entries joined.
proof fn lemma_joined_entries_rest_full(em: Seq<(Seq<char>, ValueModel)>)
    requires
        em.len() >= 1,
    ensures
        joined_entries_rest(em, em.len() as int) == canon_entries_rest(em.drop_first()),
{
    lemma_joined_entries_rest_mid(em, 1);
}

proof fn lemma_joined_entries_rest_mid(em: Seq<(Seq<char>, ValueModel)>, j: int)
    requires
        1 <= j <= em.len(),
    ensures
        joined_entries_rest(em, em.len() as int) == joined_entries_rest(em, j)
            + canon_entries_rest(em.skip(j)),
    decreases em.len() - j,
{
    if j == em.len() {
        assert(em.skip(j) =~= Seq::<(Seq<char>, ValueModel)>::empty());
        assert(joined_entries_rest(em, j) + canon_entries_rest(em.skip(j)) =~= joined_entries_rest(
            em,
            j,
        ));
    } else {
        lemma_joined_entries_rest_mid(em, j + 1);
        assert(em.skip(j)[0] == em[j]);
        assert(em.skip(j).drop_first() =~= em.skip(j + 1));
        assert(joined_entries_rest(em, j + 1) =~= joined_entries_rest(em, j) + seq![',']
            + json_string(em[j].0) + seq![':'] + canon_json(em[j].1));
        assert(joined_entries_rest(em, j) + (seq![','] + json_string(em[j].0) + seq![':']
            + canon_json(em[j].1) + canon_entries_rest(em.skip(j + 1))) =~= (joined_entries_rest(
            em,
            j,
        ) + seq![','] + json_string(em[j].0) + seq![':'] + canon_json(em[j].1))
            + canon_entries_rest(em.skip(j + 1)));
    }
}

/// Returns the canonical JSON encoding of a document node.
pub fn to_canonical_json(v: &Value) -> (r: String)
    ensures
        r@ == canon_json(v.model()),
{
    let mut out = String::new();
    push_canon(&mut out, v);
    proof {
        assert(out@ =~= canon_json(v.model()));
    }
    out
}

} // verus!
