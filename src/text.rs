//! Building strings one character at a time.
use vstd::prelude::*;
use vstd::string::*;

verus! {

/// Relies on `String::push`: appends `c` at the end of `s`.
#[verifier::external_body]
pub fn push_char(s: &mut String, c: char)
    ensures
        final(s)@ == old(s)@.push(c),
{
    s.push(c);
}

/// Appends the characters of `t` to `s`.
pub fn push_str(s: &mut String, t: &str)
    ensures
        final(s)@ == old(s)@ + t@,
{
    let n = t.unicode_len();
    let mut i: usize = 0;
    while i < n
        invariant
            n == t@.len(),
            i <= n,
            s@ == old(s)@ + t@.take(i as int),
        decreases n - i,
    {
        push_char(s, t.get_char(i));
        i = i + 1;
        proof {
            assert(s@ =~= old(s)@ + t@.take(i as int));
        }
    }
    proof {
        assert(t@.take(n as int) =~= t@);
    }
}

} // verus!
