//! Repair of stray backslashes in model output before it is read as JSON.
use vstd::prelude::*;
use crate::text::{chars_of, push_char};

verus! {

/// The characters that may follow a backslash in a JSON string.
pub open spec fn is_json_escape(c: char) -> bool {
    c == '"' || c == '\\' || c == '/' || c == 'b' || c == 'f' || c == 'n' || c == 'r' || c == 't'
        || c == 'u'
}

pub fn is_json_escape_exec(c: char) -> (r: bool)
    ensures
        r == is_json_escape(c),
{
    c == '"' || c == '\\' || c == '/' || c == 'b' || c == 'f' || c == 'n' || c == 'r' || c == 't'
        || c == 'u'
}

/// Read left to right: a backslash followed by a valid escape character is
/// kept with that character; any other backslash is doubled; the rest is kept.
pub open spec fn fix_escapes(s: Seq<char>) -> Seq<char>
    decreases s.len(),
{
    if s.len() == 0 {
        seq![]
    } else if s[0] == '\\' {
        if s.len() > 1 && is_json_escape(s[1]) {
            seq!['\\', s[1]] + fix_escapes(s.skip(2))
        } else {
            seq!['\\', '\\'] + fix_escapes(s.skip(1))
        }
    } else {
        seq![s[0]] + fix_escapes(s.skip(1))
    }
}

/// Read left to right, every backslash starts a valid escape.
pub open spec fn escapes_valid(s: Seq<char>) -> bool
    decreases s.len(),
{
    if s.len() == 0 {
        true
    } else if s[0] == '\\' {
        s.len() > 1 && is_json_escape(s[1]) && escapes_valid(s.skip(2))
    } else {
        escapes_valid(s.skip(1))
    }
}

/// Doubles every backslash that does not start a valid JSON escape, so that a
/// JSON parser accepts text holding stray backslashes (such as `\sqrt`).
pub fn fix_json_escapes(s: &str) -> (r: String)
    ensures
        r@ == fix_escapes(s@),
{
    let v = chars_of(s);
    let mut out = String::new();
    let mut i: usize = 0;
    assert(v@.skip(0) =~= v@);
    assert(Seq::<char>::empty() + fix_escapes(v@) =~= fix_escapes(v@));
    while i < v.len()
        invariant
            0 <= i <= v@.len(),
            v@ == s@,
            out@ + fix_escapes(v@.skip(i as int)) == fix_escapes(v@),
        decreases v@.len() - i,
    {
        let ghost rest = v@.skip(i as int);
        let ghost before = out@;
        let c = v[i];
        assert(rest[0] == c);
        if c == '\\' {
            if i + 1 < v.len() && is_json_escape_exec(v[i + 1]) {
                let d = v[i + 1];
                push_char(&mut out, '\\');
                push_char(&mut out, d);
                assert(rest[1] == d);
                assert(rest.skip(2) =~= v@.skip(i + 2));
                assert(out@ =~= before + seq!['\\', d]);
                assert(out@ + fix_escapes(v@.skip(i + 2)) =~= before + (seq!['\\', d] + fix_escapes(
                    rest.skip(2),
                )));
                i = i + 2;
            } else {
                push_char(&mut out, '\\');
                push_char(&mut out, '\\');
                assert(rest.skip(1) =~= v@.skip(i + 1));
                assert(out@ =~= before + seq!['\\', '\\']);
                assert(out@ + fix_escapes(v@.skip(i + 1)) =~= before + (seq!['\\', '\\']
                    + fix_escapes(rest.skip(1))));
                i = i + 1;
            }
        } else {
            push_char(&mut out, c);
            assert(rest.skip(1) =~= v@.skip(i + 1));
            assert(out@ =~= before + seq![c]);
            assert(out@ + fix_escapes(v@.skip(i + 1)) =~= before + (seq![c] + fix_escapes(
                rest.skip(1),
            )));
            i = i + 1;
        }
    }
    assert(v@.skip(i as int) =~= Seq::<char>::empty());
    assert(out@ + Seq::<char>::empty() =~= out@);
    out
}

/// After repair every backslash starts a valid escape.
pub proof fn law_fixed_escapes_valid(s: Seq<char>)
    ensures
        escapes_valid(fix_escapes(s)),
    decreases s.len(),
{
    if s.len() > 0 {
        if s[0] == '\\' {
            if s.len() > 1 && is_json_escape(s[1]) {
                law_fixed_escapes_valid(s.skip(2));
                let t = seq!['\\', s[1]] + fix_escapes(s.skip(2));
                assert(t.skip(2) =~= fix_escapes(s.skip(2)));
            } else {
                law_fixed_escapes_valid(s.skip(1));
                let t = seq!['\\', '\\'] + fix_escapes(s.skip(1));
                assert(t.skip(2) =~= fix_escapes(s.skip(1)));
            }
        } else {
            law_fixed_escapes_valid(s.skip(1));
            let t = seq![s[0]] + fix_escapes(s.skip(1));
            assert(t.skip(1) =~= fix_escapes(s.skip(1)));
        }
    }
}

/// Text whose escapes are all valid is left as it is.
pub proof fn law_valid_text_unchanged(s: Seq<char>)
    requires
        escapes_valid(s),
    ensures
        fix_escapes(s) == s,
    decreases s.len(),
{
    if s.len() > 0 {
        if s[0] == '\\' {
            law_valid_text_unchanged(s.skip(2));
            assert(seq!['\\', s[1]] + s.skip(2) =~= s);
        } else {
            law_valid_text_unchanged(s.skip(1));
            assert(seq![s[0]] + s.skip(1) =~= s);
        }
    }
}

/// Repairing twice is repairing once.
pub proof fn law_fix_idempotent(s: Seq<char>)
    ensures
        fix_escapes(fix_escapes(s)) == fix_escapes(s),
{
    law_fixed_escapes_valid(s);
    law_valid_text_unchanged(fix_escapes(s));
}

} // verus!
