use vstd::prelude::*;

verus! {

/// The characters of `s`, in order.
pub fn chars_of(s: &str) -> (r: Vec<char>)
    ensures
        r@ == s@,
{
    let mut r: Vec<char> = Vec::new();
    for c in it: s.chars()
        invariant
            r@ == it.seq().take(it.index() as int),
    {
        r.push(c);
    }
    r
}

/// Relies on `String::push`: appends one character.
#[verifier::external_body]
fn push_char(s: &mut String, c: char)
    ensures
        final(s)@ == old(s)@.push(c),
{
    s.push(c);
}

/// The string of the characters `cs`.
pub fn string_of(cs: &Vec<char>) -> (r: String)
    ensures
        r@ == cs@,
{
    let mut r = String::new();
    for i in 0..cs.len()
        invariant
            r@ == cs@.take(i as int),
    {
        push_char(&mut r, cs[i]);
        assert(cs@.take(i + 1) =~= cs@.take(i as int).push(cs@[i as int]));
    }
    assert(cs@.take(cs.len() as int) =~= cs@);
    r
}

/// Whether `b` is `a` with a negation sign in front.
pub fn negates(a: &str, b: &str) -> (r: bool)
    ensures
        r == (b@ == seq!['¬'] + a@),
{
    let ca = chars_of(a);
    let cb = chars_of(b);
    if cb.len() == 0 || cb.len() - 1 != ca.len() || cb[0] != '¬' {
        proof {
            if b@ == seq!['¬'] + a@ {
                assert(b@[0] == '¬');
            }
        }
        return false;
    }
    for k in 0..ca.len()
        invariant
            ca@ == a@,
            cb@ == b@,
            cb@.len() == ca@.len() + 1,
            cb@[0] == '¬',
            forall|j: int| 0 <= j < k ==> cb@[j + 1] == ca@[j],
    {
        if ca[k] != cb[k + 1] {
            proof {
                if b@ == seq!['¬'] + a@ {
                    assert(b@[k + 1] == a@[k as int]);
                }
            }
            return false;
        }
    }
    assert(b@ =~= seq!['¬'] + a@);
    true
}

} // verus!
