//! Character classes and the small string operations the reader needs.
use vstd::prelude::*;
use vstd::std_specs::iter::IteratorSpec;

verus! {

/// Whether `char::is_alphanumeric` holds of `c`.
pub uninterp spec fn alnum_char(c: char) -> bool;

/// Whether `char::is_whitespace` holds of `c`.
pub uninterp spec fn whitespace_char(c: char) -> bool;

/// Relies on `char::is_alphanumeric`: its answer depends on the character alone.
#[verifier::external_body]
fn is_alnum(c: char) -> (r: bool)
    ensures
        r == alnum_char(c),
{
    c.is_alphanumeric()
}

/// Relies on `char::is_whitespace`: its answer depends on the character alone.
#[verifier::external_body]
fn is_whitespace(c: char) -> (r: bool)
    ensures
        r == whitespace_char(c),
{
    c.is_whitespace()
}

/// Relies on `String::push`: appends one character at the end.
#[verifier::external_body]
pub(crate) fn push_char(s: &mut String, c: char)
    ensures
        final(s)@ == old(s)@.push(c),
{
    s.push(c)
}

/// The predicates that drive the cursor's scans.
#[derive(Debug, Clone, Copy, PartialEq, Eq, Structural)]
pub enum CharClass {
    Alnum,
    NotAlnum,
    Whitespace,
    NotGt,
    NotQuote,
    NotAngle,
    NotAlnumNotGt,
}

pub open spec fn class_holds(cls: CharClass, c: char) -> bool {
    match cls {
        CharClass::Alnum => alnum_char(c),
        CharClass::NotAlnum => !alnum_char(c),
        CharClass::Whitespace => whitespace_char(c),
        CharClass::NotGt => c != '>',
        CharClass::NotQuote => c != '"',
        CharClass::NotAngle => c != '<' && c != '>',
        CharClass::NotAlnumNotGt => !alnum_char(c) && c != '>',
    }
}

/// Tests `c` against the class `cls`.
pub fn class_test(cls: CharClass, c: char) -> (r: bool)
    ensures
        r == class_holds(cls, c),
{
    match cls {
        CharClass::Alnum => is_alnum(c),
        CharClass::NotAlnum => !is_alnum(c),
        CharClass::Whitespace => is_whitespace(c),
        CharClass::NotGt => c != '>',
        CharClass::NotQuote => c != '"',
        CharClass::NotAngle => c != '<' && c != '>',
        CharClass::NotAlnumNotGt => !is_alnum(c) && c != '>',
    }
}

/// Every character of `s` is whitespace (true of the empty sequence).
pub open spec fn all_whitespace(s: Seq<char>) -> bool {
    forall|i: int| 0 <= i < s.len() ==> whitespace_char(#[trigger] s[i])
}

/// The alphanumeric characters of `s`, in order.
pub open spec fn keep_alnum(s: Seq<char>) -> Seq<char>
    decreases s.len(),
{
    if s.len() == 0 {
        Seq::empty()
    } else if alnum_char(s.last()) {
        keep_alnum(s.drop_last()).push(s.last())
    } else {
        keep_alnum(s.drop_last())
    }
}

/// The characters of `s`.
pub fn chars_of(s: &str) -> (r: Vec<char>)
    ensures
        r@ == s@,
{
    broadcast use vstd::string::group_string_axioms;

    let mut it = s.chars();
    let mut out: Vec<char> = Vec::new();
    loop
        invariant
            out@ + it.remaining() == s@,
            it.decrease() is Some,
        decreases it.decrease()->0,
    {
        match it.next() {
            Some(c) => {
                out.push(c);
                assert(out@ + it.remaining() =~= s@);
            },
            None => {
                return out;
            },
        }
    }
}

/// The characters `v[from..to]` as a string.
pub fn string_of(v: &Vec<char>, from: usize, to: usize) -> (r: String)
    requires
        from <= to <= v.len(),
    ensures
        r@ == v@.subrange(from as int, to as int),
{
    let mut out = String::new();
    let mut i = from;
    while i < to
        invariant
            from <= i <= to <= v.len(),
            out@ == v@.subrange(from as int, i as int),
        decreases to - i,
    {
        push_char(&mut out, v[i]);
        assert(out@ =~= v@.subrange(from as int, i + 1));
        i += 1;
    }
    out
}

/// The alphanumeric characters of `v[from..to]` as a string.
pub fn alnum_string_of(v: &Vec<char>, from: usize, to: usize) -> (r: String)
    requires
        from <= to <= v.len(),
    ensures
        r@ == keep_alnum(v@.subrange(from as int, to as int)),
{
    let mut out = String::new();
    let mut i = from;
    while i < to
        invariant
            from <= i <= to <= v.len(),
            out@ == keep_alnum(v@.subrange(from as int, i as int)),
        decreases to - i,
    {
        let c = v[i];
        assert(v@.subrange(from as int, i + 1).drop_last() =~= v@.subrange(from as int, i as int));
        if is_alnum(c) {
            push_char(&mut out, c);
        }
        i += 1;
    }
    out
}

/// Whether `c` occurs in `v[from..to]`.
pub fn contains_char(v: &Vec<char>, from: usize, to: usize, c: char) -> (r: bool)
    requires
        from <= to <= v.len(),
    ensures
        r == v@.subrange(from as int, to as int).contains(c),
{
    let mut i = from;
    while i < to
        invariant
            from <= i <= to <= v.len(),
            forall|k: int| from <= k < i ==> v@[k] != c,
        decreases to - i,
    {
        if v[i] == c {
            assert(v@.subrange(from as int, to as int)[i - from] == c);
            return true;
        }
        i += 1;
    }
    assert(!v@.subrange(from as int, to as int).contains(c)) by {
        assert forall|k: int| 0 <= k < to - from implies v@.subrange(from as int, to as int)[k] != c by {
            assert(v@[from + k] != c);
        }
    }
    false
}

/// Whether every character of `v[from..to]` is whitespace.
pub fn all_whitespace_in(v: &Vec<char>, from: usize, to: usize) -> (r: bool)
    requires
        from <= to <= v.len(),
    ensures
        r == all_whitespace(v@.subrange(from as int, to as int)),
{
    let mut i = from;
    while i < to
        invariant
            from <= i <= to <= v.len(),
            forall|k: int| from <= k < i ==> whitespace_char(v@[k]),
        decreases to - i,
    {
        if !is_whitespace(v[i]) {
            assert(!whitespace_char(v@.subrange(from as int, to as int)[i - from]));
            return false;
        }
        i += 1;
    }
    assert forall|k: int| 0 <= k < to - from implies whitespace_char(
        #[trigger] v@.subrange(from as int, to as int)[k],
    ) by {
        assert(whitespace_char(v@[from + k]));
    }
    true
}

} // verus!
