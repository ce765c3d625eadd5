use vstd::prelude::*;

verus! {

/// What `String::from_utf8_lossy` makes of the given bytes: a function
/// of the bytes alone, pinned exactly on valid UTF-8 by the clause on
/// `bytes_to_text` below.
pub uninterp spec fn lossy_of(bytes: Seq<u8>) -> Seq<char>;

/// Relies on String::from_utf8_lossy: the result depends on the bytes
/// alone, and valid UTF-8 comes back decoded unchanged.
#[verifier::external_body]
pub fn bytes_to_text(v: &Vec<u8>) -> (r: String)
    ensures
        r@ == lossy_of(v@),
        vstd::utf8::valid_utf8(v@) ==> r@ == vstd::utf8::decode_utf8(v@),
{
    String::from_utf8_lossy(v).into_owned()
}

/// A payload shown to a person: console-originated payloads usually end
/// in one line feed, which is dropped; any other trailing byte stays.
pub open spec fn strip_payload_newline(p: Seq<u8>) -> Seq<u8> {
    if p.len() > 0 && p.last() == 10u8 {
        p.drop_last()
    } else {
        p
    }
}

/// The user-visible text of a payload.
pub open spec fn display_text(p: Seq<u8>) -> Seq<char> {
    lossy_of(strip_payload_newline(p))
}

/// The user-visible text of a payload, as an owned string.
pub fn payload_text(p: &Vec<u8>) -> (r: String)
    ensures
        r@ == display_text(p@),
{
    let keep: usize = if p.len() > 0 && p[p.len() - 1] == 10u8 {
        p.len() - 1
    } else {
        p.len()
    };
    let mut stripped: Vec<u8> = Vec::new();
    let mut i: usize = 0;
    while i < keep
        invariant
            keep <= p@.len(),
            i <= keep,
            stripped@ == p@.take(keep as int).take(i as int),
        decreases keep - i,
    {
        stripped.push(p[i]);
        proof {
            assert(stripped@ =~= p@.take(keep as int).take(i + 1));
        }
        i = i + 1;
    }
    proof {
        assert(p@.take(keep as int).take(keep as int) =~= p@.take(keep as int));
        assert(stripped@ =~= strip_payload_newline(p@));
    }
    bytes_to_text(&stripped)
}

/// Relies on String::push: appends exactly the given character to the string.
#[verifier::external_body]
pub fn push_char(s: &mut String, c: char)
    ensures
        final(s)@ == old(s)@.push(c),
{
    s.push(c);
}

/// The characters of a string as a vector, in order.
pub fn str_chars(s: &str) -> (r: Vec<char>)
    ensures
        r@ == s@,
{
    let n = s.unicode_len();
    let mut r: Vec<char> = Vec::new();
    let mut i: usize = 0;
    while i < n
        invariant
            n == s@.len(),
            i <= n,
            r@ == s@.take(i as int),
        decreases n - i,
    {
        let c = s.get_char(i);
        r.push(c);
        proof {
            assert(r@ =~= s@.take(i + 1));
        }
        i = i + 1;
    }
    proof {
        assert(r@ =~= s@);
    }
    r
}

/// The characters of a vector as a string.
pub fn chars_to_string(v: &Vec<char>) -> (r: String)
    ensures
        r@ == v@,
{
    let mut r = String::new();
    let mut i: usize = 0;
    while i < v.len()
        invariant
            i <= v@.len(),
            r@ == v@.take(i as int),
        decreases v@.len() - i,
    {
        push_char(&mut r, v[i]);
        proof {
            assert(r@ =~= v@.take(i + 1));
        }
        i = i + 1;
    }
    proof {
        assert(r@ =~= v@);
    }
    r
}

} // verus!
