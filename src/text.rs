//! Runs of text.
use vstd::prelude::*;

verus! {

/// A run of text.
#[derive(Clone, Debug)]
pub struct TextSequence {
    pub text: String,
}

/// `s` split at every newline; one more segment than newlines.
pub open spec fn split_lines(s: Seq<char>) -> Seq<Seq<char>>
    decreases s.len(),
{
    if s.len() == 0 {
        seq![Seq::empty()]
    } else {
        let r = split_lines(s.drop_last());
        if s.last() == '\n' {
            r.push(Seq::empty())
        } else {
            r.update(r.len() - 1, r.last().push(s.last()))
        }
    }
}

proof fn lemma_split_lines_nonempty(s: Seq<char>)
    ensures
        split_lines(s).len() >= 1,
    decreases s.len(),
{
    if s.len() > 0 {
        lemma_split_lines_nonempty(s.drop_last());
    }
}

/// There is always at least one segment.
pub proof fn lemma_split_lines_nonempty_pub(s: Seq<char>)
    ensures
        split_lines(s).len() >= 1,
{
    lemma_split_lines_nonempty(s);
}

impl TextSequence {
    pub fn from_str(text: &str) -> (r: TextSequence)
        ensures
            r.text@ == text@,
    {
        TextSequence { text: text.to_owned() }
    }

    /// The text split at each newline, in order; the newlines themselves are dropped.
    pub fn split_by_line_breaks(&self) -> (r: Vec<TextSequence>)
        ensures
            r@.len() == split_lines(self.text@).len(),
            forall|k: int| 0 <= k < r@.len() ==> (#[trigger] r@[k]).text@ == split_lines(self.text@)[k],
    {
        let s = self.text.as_str();
        let n = s.unicode_len();
        let mut out: Vec<TextSequence> = Vec::new();
        let mut start: usize = 0;
        let mut i: usize = 0;
        proof {
            assert(s@.take(0) =~= Seq::<char>::empty());
            assert(s@.subrange(0, 0) =~= Seq::<char>::empty());
        }
        while i < n
            invariant
                s@ == self.text@,
                n == s@.len(),
                start <= i <= n,
                out@.len() + 1 == split_lines(s@.take(i as int)).len(),
                forall|k: int| 0 <= k < out@.len() ==> (#[trigger] out@[k]).text@ == split_lines(s@.take(i as int))[k],
                s@.subrange(start as int, i as int) == split_lines(s@.take(i as int)).last(),
            decreases n - i,
        {
            let c = s.get_char(i);
            let ghost prev = split_lines(s@.take(i as int));
            proof {
                assert(s@.take(i + 1).drop_last() =~= s@.take(i as int));
                assert(s@.take(i + 1).last() == c);
            }
            if c == '\n' {
                let piece = s.substring_char(start, i);
                out.push(TextSequence { text: piece.to_owned() });
                start = i + 1;
                proof {
                    assert(s@.subrange(start as int, i + 1) =~= Seq::<char>::empty());
                }
            } else {
                proof {
                    assert(s@.subrange(start as int, i + 1) =~= s@.subrange(start as int, i as int).push(c));
                }
            }
            i = i + 1;
        }
        let piece = s.substring_char(start, n);
        out.push(TextSequence { text: piece.to_owned() });
        proof {
            assert(s@.take(n as int) =~= s@);
        }
        out
    }
}

} // verus!
