//! Prefix completion for the interactive prompts: the first option that
//! starts with the typed input, if any.

use vstd::prelude::*;
use vstd::string::StrSliceExecFns;
use crate::event::id_views;

verus! {

/// Whether `p` is a prefix of `s`.
pub open spec fn is_prefix_of(p: Seq<char>, s: Seq<char>) -> bool {
    p.len() <= s.len() && s.take(p.len() as int) == p
}

/// The first option that `input` is a prefix of, scanning in order.
pub open spec fn first_completion(options: Seq<Seq<char>>, input: Seq<char>) -> Option<Seq<char>>
    decreases options.len(),
{
    if options.len() == 0 {
        Option::None
    } else if is_prefix_of(input, options[0]) {
        Option::Some(options[0])
    } else {
        first_completion(options.drop_first(), input)
    }
}

/// Whether `p` is a prefix of `s`, as `is_prefix_of` says.
fn str_is_prefix(p: &str, s: &str) -> (r: bool)
    ensures
        r == is_prefix_of(p@, s@),
{
    let plen = p.unicode_len();
    let slen = s.unicode_len();
    if plen > slen {
        return false;
    }
    let mut i: usize = 0;
    while i < plen
        invariant
            i <= plen <= slen,
            plen == p@.len(),
            slen == s@.len(),
            forall|n: int| 0 <= n < i ==> p@[n] == s@[n],
        decreases plen - i,
    {
        if p.get_char(i) != s.get_char(i) {
            proof {
                assert(s@.take(plen as int)[i as int] == s@[i as int]);
            }
            return false;
        }
        i = i + 1;
    }
    proof {
        assert(s@.take(plen as int) =~= p@);
    }
    true
}

/// Completion source drawn from history: a list of previous answers.
pub struct SimpleCompletion {
    pub options: Vec<String>,
}

impl SimpleCompletion {
    /// The first stored option that starts with `input`, if one exists.
    pub fn get(&self, input: &str) -> (r: Option<String>)
        ensures
            r matches Some(s) ==> first_completion(id_views(self.options@), input@)
                == Option::Some(s@),
            r is None ==> first_completion(id_views(self.options@), input@) is None,
    {
        let ghost opts = id_views(self.options@);
        let mut n: usize = 0;
        proof {
            assert(opts.skip(0) =~= opts);
        }
        while n < self.options.len()
            invariant
                n <= self.options@.len(),
                opts == id_views(self.options@),
                first_completion(opts, input@) == first_completion(opts.skip(n as int), input@),
            decreases self.options@.len() - n,
        {
            if str_is_prefix(input, self.options[n].as_str()) {
                proof {
                    assert(opts.skip(n as int)[0] == opts[n as int]);
                }
                return Some(self.options[n].clone());
            }
            proof {
                assert(opts.skip(n as int)[0] == opts[n as int]);
                assert(opts.skip(n as int).drop_first() =~= opts.skip(n + 1));
            }
            n = n + 1;
        }
        proof {
            assert(opts.skip(self.options@.len() as int) =~= Seq::<Seq<char>>::empty());
        }
        None
    }
}

} // verus!
