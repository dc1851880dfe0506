//! The state-file format.  A [`SavedState`] is written as one JSON object,
//! `{"installed":{<name>:{"meta":<meta>}...},"pending":null|{<name>:<meta>...}}`,
//! with `<meta>` an object of the release timestamp and the version label.
//! [`encode_state`] produces exactly this form; [`parse_state`] reads it
//! back, and reading what was written reproduces an equal state.
//!
//! The functions work on characters; the caller owns the UTF-8 framing of
//! the file.

use vstd::prelude::*;
use crate::metadata::{ContentMetadata, InstalledContent, MetaView};
use crate::namemap::{MapEntry, NameMap};
use crate::state::{SavedState, StateView};

verus! {

/// The decimal digit character for `d`.
pub open spec fn spec_digit_char(d: int) -> char {
    if d == 0 {
        '0'
    } else if d == 1 {
        '1'
    } else if d == 2 {
        '2'
    } else if d == 3 {
        '3'
    } else if d == 4 {
        '4'
    } else if d == 5 {
        '5'
    } else if d == 6 {
        '6'
    } else if d == 7 {
        '7'
    } else if d == 8 {
        '8'
    } else {
        '9'
    }
}

/// Whether `c` is a decimal digit.
pub open spec fn spec_is_digit(c: char) -> bool {
    '0' <= c && c <= '9'
}

/// Numeric value of a digit character.
pub open spec fn spec_digit_val(c: char) -> int {
    c as int - '0' as int
}

/// The decimal representation of `n`, most significant digit first, no
/// leading zeros (a single `0` for zero).
pub open spec fn spec_u64_chars(n: int) -> Seq<char>
    decreases n,
{
    if n < 10 {
        seq![spec_digit_char(n)]
    } else {
        spec_u64_chars(n / 10).push(spec_digit_char(n % 10))
    }
}

/// How one character is written inside a JSON string: quote and backslash
/// get a backslash prefix, everything else stands for itself.
pub open spec fn spec_escape_char(c: char) -> Seq<char> {
    if c == '"' || c == '\\' {
        seq!['\\', c]
    } else {
        seq![c]
    }
}

/// The escaped body of a JSON string.
pub open spec fn spec_escape(s: Seq<char>) -> Seq<char>
    decreases s.len(),
{
    if s.len() == 0 {
        Seq::empty()
    } else {
        spec_escape_char(s[0]) + spec_escape(s.drop_first())
    }
}

/// A JSON string: the escaped body between quotes.
pub open spec fn spec_json_string(s: Seq<char>) -> Seq<char> {
    seq!['"'] + spec_escape(s) + seq!['"']
}

/// The metadata object.
pub open spec fn spec_json_meta(m: MetaView) -> Seq<char> {
    "{\"timestamp\":"@ + spec_u64_chars(m.timestamp as int) + ",\"version\":"@ + spec_json_string(
        m.version,
    ) + "}"@
}

/// One installed-map entry: the name keys a record whose `meta` field holds
/// the metadata.
pub open spec fn spec_installed_entry(p: (Seq<char>, MetaView)) -> Seq<char> {
    spec_json_string(p.0) + ":{\"meta\":"@ + spec_json_meta(p.1) + "}"@
}

/// One pending-map entry: the name keys the metadata directly.
pub open spec fn spec_pending_entry(p: (Seq<char>, MetaView)) -> Seq<char> {
    spec_json_string(p.0) + ":"@ + spec_json_meta(p.1)
}

/// Second and later installed entries, each preceded by a comma.
pub open spec fn spec_installed_tail(entries: Seq<(Seq<char>, MetaView)>) -> Seq<char>
    decreases entries.len(),
{
    if entries.len() == 0 {
        Seq::empty()
    } else {
        ","@ + spec_installed_entry(entries[0]) + spec_installed_tail(entries.drop_first())
    }
}

/// The comma-separated installed entries.
pub open spec fn spec_installed_entries(entries: Seq<(Seq<char>, MetaView)>) -> Seq<char> {
    if entries.len() == 0 {
        Seq::empty()
    } else {
        spec_installed_entry(entries[0]) + spec_installed_tail(entries.drop_first())
    }
}

/// Second and later pending entries, each preceded by a comma.
pub open spec fn spec_pending_tail(entries: Seq<(Seq<char>, MetaView)>) -> Seq<char>
    decreases entries.len(),
{
    if entries.len() == 0 {
        Seq::empty()
    } else {
        ","@ + spec_pending_entry(entries[0]) + spec_pending_tail(entries.drop_first())
    }
}

/// The comma-separated pending entries.
pub open spec fn spec_pending_entries(entries: Seq<(Seq<char>, MetaView)>) -> Seq<char> {
    if entries.len() == 0 {
        Seq::empty()
    } else {
        spec_pending_entry(entries[0]) + spec_pending_tail(entries.drop_first())
    }
}

/// The whole state file.
pub open spec fn spec_json_state(sv: StateView) -> Seq<char> {
    "{\"installed\":{"@ + spec_installed_entries(sv.installed) + "},\"pending\":"@ + (
    match sv.pending {
        None => "null"@,
        Some(p) => seq!['{'] + spec_pending_entries(p) + seq!['}'],
    }) + "}"@
}

/// Appending an installed entry appends a comma and the entry's text.
proof fn lemma_installed_tail_push(entries: Seq<(Seq<char>, MetaView)>, e: (Seq<char>, MetaView))
    ensures
        spec_installed_tail(entries.push(e)) =~= spec_installed_tail(entries) + ","@
            + spec_installed_entry(e),
    decreases entries.len(),
{
    if entries.len() == 0 {
        assert(entries.push(e)[0] == e);
        assert(entries.push(e).drop_first() =~= Seq::<(Seq<char>, MetaView)>::empty());
        assert(spec_installed_tail(entries.push(e)) == ","@ + spec_installed_entry(e)
            + spec_installed_tail(entries.push(e).drop_first()));
        assert(spec_installed_tail(Seq::<(Seq<char>, MetaView)>::empty())
            == Seq::<char>::empty());
    } else {
        assert(entries.push(e)[0] == entries[0]);
        assert(entries.push(e).drop_first() =~= entries.drop_first().push(e));
        lemma_installed_tail_push(entries.drop_first(), e);
        assert(spec_installed_tail(entries.push(e)) == ","@ + spec_installed_entry(entries[0])
            + spec_installed_tail(entries.drop_first().push(e)));
        assert(spec_installed_tail(entries) == ","@ + spec_installed_entry(entries[0])
            + spec_installed_tail(entries.drop_first()));
    }
}

/// Appending an installed entry to the full list.
proof fn lemma_installed_entries_push(entries: Seq<(Seq<char>, MetaView)>, e: (Seq<char>, MetaView))
    ensures
        spec_installed_entries(entries.push(e)) =~= if entries.len() == 0 {
            spec_installed_entry(e)
        } else {
            spec_installed_entries(entries) + ","@ + spec_installed_entry(e)
        },
{
    assert(spec_installed_entries(entries.push(e)) == spec_installed_entry(entries.push(e)[0])
        + spec_installed_tail(entries.push(e).drop_first()));
    if entries.len() == 0 {
        assert(entries.push(e)[0] == e);
        assert(entries.push(e).drop_first() =~= Seq::<(Seq<char>, MetaView)>::empty());
        assert(spec_installed_tail(Seq::<(Seq<char>, MetaView)>::empty())
            == Seq::<char>::empty());
    } else {
        assert(entries.push(e)[0] == entries[0]);
        assert(entries.push(e).drop_first() =~= entries.drop_first().push(e));
        lemma_installed_tail_push(entries.drop_first(), e);
        assert(spec_installed_entries(entries) == spec_installed_entry(entries[0])
            + spec_installed_tail(entries.drop_first()));
    }
}

/// Appending a pending entry appends a comma and the entry's text.
#[verifier::rlimit(60)]
proof fn lemma_pending_tail_push(entries: Seq<(Seq<char>, MetaView)>, e: (Seq<char>, MetaView))
    ensures
        spec_pending_tail(entries.push(e)) =~= spec_pending_tail(entries) + ","@
            + spec_pending_entry(e),
    decreases entries.len(),
{
    if entries.len() == 0 {
        assert(entries.push(e)[0] == e);
        assert(entries.push(e).drop_first() =~= Seq::<(Seq<char>, MetaView)>::empty());
        assert(spec_pending_tail(entries.push(e)) == ","@ + spec_pending_entry(e)
            + spec_pending_tail(entries.push(e).drop_first()));
        assert(spec_pending_tail(Seq::<(Seq<char>, MetaView)>::empty())
            == Seq::<char>::empty());
    } else {
        assert(entries.push(e)[0] == entries[0]);
        assert(entries.push(e).drop_first() =~= entries.drop_first().push(e));
        lemma_pending_tail_push(entries.drop_first(), e);
        assert(spec_pending_tail(entries.push(e)) == ","@ + spec_pending_entry(entries[0])
            + spec_pending_tail(entries.drop_first().push(e)));
        assert(spec_pending_tail(entries) == ","@ + spec_pending_entry(entries[0])
            + spec_pending_tail(entries.drop_first()));
    }
}

/// Appending a pending entry to the full list.
proof fn lemma_pending_entries_push(entries: Seq<(Seq<char>, MetaView)>, e: (Seq<char>, MetaView))
    ensures
        spec_pending_entries(entries.push(e)) =~= if entries.len() == 0 {
            spec_pending_entry(e)
        } else {
            spec_pending_entries(entries) + ","@ + spec_pending_entry(e)
        },
{
    assert(spec_pending_entries(entries.push(e)) == spec_pending_entry(entries.push(e)[0])
        + spec_pending_tail(entries.push(e).drop_first()));
    if entries.len() == 0 {
        assert(entries.push(e)[0] == e);
        assert(entries.push(e).drop_first() =~= Seq::<(Seq<char>, MetaView)>::empty());
        assert(spec_pending_tail(Seq::<(Seq<char>, MetaView)>::empty())
            == Seq::<char>::empty());
    } else {
        assert(entries.push(e)[0] == entries[0]);
        assert(entries.push(e).drop_first() =~= entries.drop_first().push(e));
        lemma_pending_tail_push(entries.drop_first(), e);
        assert(spec_pending_entries(entries) == spec_pending_entry(entries[0])
            + spec_pending_tail(entries.drop_first()));
    }
}

/// Escaping distributes over appending one character.
proof fn lemma_escape_push(s: Seq<char>, c: char)
    ensures
        spec_escape(s.push(c)) =~= spec_escape(s) + spec_escape_char(c),
    decreases s.len(),
{
    if s.len() == 0 {
        assert(s.push(c)[0] == c);
        assert(s.push(c).drop_first() =~= Seq::<char>::empty());
        assert(spec_escape(s.push(c)) == spec_escape_char(c) + spec_escape(
            s.push(c).drop_first(),
        ));
        assert(spec_escape(Seq::<char>::empty()) == Seq::<char>::empty());
    } else {
        assert(s.push(c)[0] == s[0]);
        assert(s.push(c).drop_first() =~= s.drop_first().push(c));
        lemma_escape_push(s.drop_first(), c);
        assert(spec_escape(s.push(c)) == spec_escape_char(s[0]) + spec_escape(
            s.drop_first().push(c),
        ));
        assert(spec_escape(s) == spec_escape_char(s[0]) + spec_escape(s.drop_first()));
    }
}

/// The digit character for `d`.
fn digit_char(d: u64) -> (c: char)
    requires
        d < 10,
    ensures
        c == spec_digit_char(d as int),
{
    match d {
        0 => '0',
        1 => '1',
        2 => '2',
        3 => '3',
        4 => '4',
        5 => '5',
        6 => '6',
        7 => '7',
        8 => '8',
        _ => '9',
    }
}

/// Append the characters of `s`.
fn push_str(out: &mut Vec<char>, s: &str)
    ensures
        final(out)@ =~= old(out)@ + s@,
{
    let n = s.unicode_len();
    let mut i: usize = 0;
    while i < n
        invariant
            i <= n,
            n == s@.len(),
            out@ =~= old(out)@ + s@.take(i as int),
        decreases n - i,
    {
        let c = s.get_char(i);
        out.push(c);
        proof {
            assert(s@.take(i + 1 as int) =~= s@.take(i as int).push(s@[i as int]));
        }
        i = i + 1;
    }
    proof {
        assert(s@.take(n as int) =~= s@);
    }
}

/// Append the decimal representation of `n`.
fn push_u64(out: &mut Vec<char>, n: u64)
    ensures
        final(out)@ =~= old(out)@ + spec_u64_chars(n as int),
    decreases n,
{
    if n < 10 {
        out.push(digit_char(n));
    } else {
        push_u64(out, n / 10);
        out.push(digit_char(n % 10));
    }
}

/// Append the escaped body of `s`.
fn push_escaped(out: &mut Vec<char>, s: &str)
    ensures
        final(out)@ =~= old(out)@ + spec_escape(s@),
{
    let n = s.unicode_len();
    let mut i: usize = 0;
    while i < n
        invariant
            i <= n,
            n == s@.len(),
            out@ =~= old(out)@ + spec_escape(s@.take(i as int)),
        decreases n - i,
    {
        let c = s.get_char(i);
        if c == '"' || c == '\\' {
            out.push('\\');
        }
        out.push(c);
        proof {
            assert(s@.take(i + 1 as int) =~= s@.take(i as int).push(s@[i as int]));
            lemma_escape_push(s@.take(i as int), s@[i as int]);
        }
        i = i + 1;
    }
    proof {
        assert(s@.take(n as int) =~= s@);
    }
}

/// Append `s` as a JSON string.
fn push_json_string(out: &mut Vec<char>, s: &str)
    ensures
        final(out)@ =~= old(out)@ + spec_json_string(s@),
{
    out.push('"');
    push_escaped(out, s);
    out.push('"');
}

/// Append the metadata object.
fn push_meta(out: &mut Vec<char>, m: &ContentMetadata)
    ensures
        final(out)@ =~= old(out)@ + spec_json_meta(m@),
{
    push_str(out, "{\"timestamp\":");
    push_u64(out, m.timestamp);
    push_str(out, ",\"version\":");
    push_json_string(out, m.version.as_str());
    push_str(out, "}");
}

/// The state file content for `state`: one JSON object, deterministic in the
/// state's value, so saving equal states writes equal files.
pub fn encode_state(state: &SavedState) -> (r: Vec<char>)
    ensures
        r@ =~= spec_json_state(state@),
{
    let mut out: Vec<char> = Vec::new();
    push_str(&mut out, "{\"installed\":{");
    proof {
        assert(state@.installed.take(0) =~= Seq::<(Seq<char>, MetaView)>::empty());
        assert(spec_installed_entries(Seq::<(Seq<char>, MetaView)>::empty())
            == Seq::<char>::empty());
    }
    let n = state.installed.len();
    let mut i: usize = 0;
    while i < n
        invariant
            i <= n,
            n == state.installed@.len(),
            out@ =~= "{\"installed\":{"@ + spec_installed_entries(state@.installed.take(i as int)),
        decreases n - i,
    {
        if i > 0 {
            push_str(&mut out, ",");
        }
        let entry = state.installed.entry_at(i);
        push_json_string(&mut out, entry.name.as_str());
        push_str(&mut out, ":{\"meta\":");
        push_meta(&mut out, &entry.value.meta);
        push_str(&mut out, "}");
        proof {
            assert(state@.installed.take(i + 1 as int) =~= state@.installed.take(i as int).push(
                state@.installed[i as int],
            ));
            lemma_installed_entries_push(
                state@.installed.take(i as int),
                state@.installed[i as int],
            );
        }
        i = i + 1;
    }
    proof {
        assert(state@.installed.take(n as int) =~= state@.installed);
    }
    push_str(&mut out, "},\"pending\":");
    match &state.pending {
        None => {
            push_str(&mut out, "null");
        },
        Some(p) => {
            push_str(&mut out, "{");
            proof {
                reveal_strlit("{");
                assert("{"@ =~= seq!['{']);
            }
            let ghost pv = state@.pending->Some_0;
            proof {
                assert(state@.pending->Some_0.take(0) =~= Seq::<(Seq<char>, MetaView)>::empty());
                assert(spec_pending_entries(Seq::<(Seq<char>, MetaView)>::empty())
                    == Seq::<char>::empty());
            }
            let np = p.len();
            let mut j: usize = 0;
            while j < np
                invariant
                    j <= np,
                    np == p@.len(),
                    state.pending matches Some(pp) && pp == *p,
                    pv == state@.pending->Some_0,
                    pv.len() == np,
                    forall|k: int| 0 <= k < np ==> pv[k] == crate::state::pending_pair(p@[k]),
                    out@ =~= "{\"installed\":{"@ + spec_installed_entries(state@.installed) + "},\"pending\":"@
                        + seq!['{'] + spec_pending_entries(pv.take(j as int)),
                decreases np - j,
            {
                if j > 0 {
                    push_str(&mut out, ",");
                }
                let entry = p.entry_at(j);
                push_json_string(&mut out, entry.name.as_str());
                push_str(&mut out, ":");
                push_meta(&mut out, &entry.value);
                proof {
                    assert(pv.take(j + 1 as int) =~= pv.take(j as int).push(pv[j as int]));
                    lemma_pending_entries_push(pv.take(j as int), pv[j as int]);
                }
                j = j + 1;
            }
            proof {
                assert(pv.take(np as int) =~= pv);
            }
            push_str(&mut out, "}");
            proof {
                reveal_strlit("}");
                assert("}"@ =~= seq!['}']);
            }
        },
    }
    push_str(&mut out, "}");
    out
}

} // verus!
