//! Rewriting of source-path prefixes (`old=new` rules).
use vstd::prelude::*;

use crate::text::{chars_of, string_of, sub_chars};

verus! {

/// Position of the first `=` in `s`, or `s.len()` when there is none.
pub open spec fn eq_pos(s: Seq<char>) -> nat
    decreases s.len(),
{
    if s.len() == 0 {
        0
    } else if s[0] == '=' {
        0
    } else {
        1 + eq_pos(s.drop_first())
    }
}

/// The rule written as `s`: the text before the first `=` is the old prefix, the
/// text after it the new one; without `=`, the whole text is the old prefix and
/// the new one is empty.
pub open spec fn rule_of(s: Seq<char>) -> (Seq<char>, Seq<char>) {
    let k = eq_pos(s);
    if k < s.len() {
        (s.subrange(0, k as int), s.subrange(k as int + 1, s.len() as int))
    } else {
        (s, Seq::empty())
    }
}

/// The path after the first rule whose old prefix begins `p` has swapped it for
/// its new prefix; `p` itself when no rule applies.
pub open spec fn replace_spec(rules: Seq<(Seq<char>, Seq<char>)>, p: Seq<char>) -> Seq<char>
    decreases rules.len(),
{
    if rules.len() == 0 {
        p
    } else if rules[0].0.is_prefix_of(p) {
        rules[0].1 + p.subrange(rules[0].0.len() as int, p.len() as int)
    } else {
        replace_spec(rules.drop_first(), p)
    }
}

proof fn lemma_eq_pos_bound(s: Seq<char>)
    ensures
        eq_pos(s) <= s.len(),
        eq_pos(s) < s.len() ==> s[eq_pos(s) as int] == '=',
        forall|j: int| 0 <= j < eq_pos(s) ==> s[j] != '=',
    decreases s.len(),
{
    if s.len() > 0 && s[0] != '=' {
        lemma_eq_pos_bound(s.drop_first());
        assert forall|j: int| 0 <= j < eq_pos(s) implies s[j] != '=' by {
            if j > 0 {
                assert(s[j] == s.drop_first()[j - 1]);
            }
        }
    }
}

/// An ordered list of prefix rules for source paths.
pub struct PrefixReplacements {
    pub replacements: Vec<(String, String)>,
}

impl PrefixReplacements {
    /// The rules as (old prefix, new prefix) character sequences.
    pub open spec fn rules(&self) -> Seq<(Seq<char>, Seq<char>)> {
        self.replacements@.map_values(|r: (String, String)| (r.0@, r.1@))
    }

    /// Reads one rule from each string, in order (see `rule_of`).
    pub fn parse(input: &Vec<String>) -> (r: PrefixReplacements)
        ensures
            r.rules().len() == input@.len(),
            forall|i: int| 0 <= i < input@.len() ==> r.rules()[i] == rule_of(#[trigger] input@[i]@),
    {
        let mut replacements: Vec<(String, String)> = Vec::new();
        let mut i: usize = 0;
        while i < input.len()
            invariant
                i <= input@.len(),
                replacements@.len() == i,
                forall|j: int|
                    0 <= j < i ==> (#[trigger] replacements@[j]).0@ == rule_of(input@[j]@).0
                        && replacements@[j].1@ == rule_of(input@[j]@).1,
            decreases input@.len() - i,
        {
            let cs = chars_of(input[i].as_str());
            let mut k: usize = 0;
            while k < cs.len() && cs[k] != '='
                invariant
                    k <= cs@.len(),
                    forall|j: int| 0 <= j < k ==> cs@[j] != '=',
                decreases cs@.len() - k,
            {
                k = k + 1;
            }
            proof {
                lemma_eq_pos_bound(cs@);
                assert(eq_pos(cs@) == k) by {
                    if eq_pos(cs@) < k {
                        assert(cs@[eq_pos(cs@) as int] == '=');
                    }
                }
            }
            if k < cs.len() {
                let old_prefix = string_of(&sub_chars(&cs, 0, k));
                let new_prefix = string_of(&sub_chars(&cs, k + 1, cs.len()));
                replacements.push((old_prefix, new_prefix));
            } else {
                replacements.push((input[i].clone(), String::new()));
            }
            i = i + 1;
        }
        let r = PrefixReplacements { replacements };
        assert forall|j: int| 0 <= j < input@.len() implies r.rules()[j] == rule_of(
            #[trigger] input@[j]@,
        ) by {
            assert(r.replacements@[j].0@ == rule_of(input@[j]@).0);
        }
        r
    }

    /// Rewrites `path` by the first rule whose old prefix begins it.
    pub fn replace(&self, path: &String) -> (r: String)
        ensures
            r@ == replace_spec(self.rules(), path@),
    {
        let p = chars_of(path.as_str());
        let mut i: usize = 0;
        assert(self.rules().subrange(0, self.rules().len() as int) =~= self.rules());
        while i < self.replacements.len()
            invariant
                i <= self.rules().len(),
                p@ == path@,
                replace_spec(self.rules().subrange(i as int, self.rules().len() as int), path@)
                    == replace_spec(self.rules(), path@),
            decreases self.replacements@.len() - i,
        {
            let old_prefix = chars_of(self.replacements[i].0.as_str());
            let ghost rest = self.rules().subrange(i as int, self.rules().len() as int);
            assert(rest[0] == self.rules()[i as int]);
            assert(rest.drop_first() =~= self.rules().subrange(i + 1, self.rules().len() as int));
            if old_prefix.len() <= p.len() {
                let mut k: usize = 0;
                while k < old_prefix.len() && old_prefix[k] == p[k]
                    invariant
                        k <= old_prefix@.len() <= p@.len(),
                        forall|j: int| 0 <= j < k ==> old_prefix@[j] == p@[j],
                    decreases old_prefix@.len() - k,
                {
                    k = k + 1;
                }
                if k == old_prefix.len() {
                    assert(old_prefix@ =~= p@.subrange(0, old_prefix@.len() as int));
                    let mut out = chars_of(self.replacements[i].1.as_str());
                    let mut m: usize = k;
                    while m < p.len()
                        invariant
                            k <= m <= p@.len(),
                            i < self.rules().len(),
                            out@ == self.rules()[i as int].1 + p@.subrange(k as int, m as int),
                        decreases p@.len() - m,
                    {
                        assert(p@.subrange(k as int, m + 1) =~= p@.subrange(k as int, m as int).push(p@[m as int]));
                        out.push(p[m]);
                        m = m + 1;
                    }
                    return string_of(&out);
                }
                assert(!old_prefix@.is_prefix_of(p@)) by {
                    if old_prefix@.is_prefix_of(p@) {
                        assert(old_prefix@[k as int] == p@[k as int]);
                    }
                }
            }
            i = i + 1;
        }
        assert(self.rules().subrange(i as int, self.rules().len() as int).len() == 0);
        path.clone()
    }

    /// Rewrites every path in place by `replace`.
    pub fn replace_all(&self, paths: &mut Vec<String>)
        ensures
            final(paths)@.len() == old(paths)@.len(),
            forall|i: int|
                0 <= i < old(paths)@.len() ==> (#[trigger] final(paths)@[i])@ == replace_spec(
                    self.rules(),
                    old(paths)@[i]@,
                ),
    {
        let mut i: usize = 0;
        while i < paths.len()
            invariant
                i <= paths@.len(),
                paths@.len() == old(paths)@.len(),
                forall|j: int|
                    0 <= j < i ==> (#[trigger] paths@[j])@ == replace_spec(self.rules(), old(paths)@[j]@),
                forall|j: int| i <= j < paths@.len() ==> #[trigger] paths@[j] == old(paths)@[j],
            decreases paths@.len() - i,
        {
            let r = self.replace(&paths[i]);
            paths.set(i, r);
            i = i + 1;
        }
    }
}

} // verus!
