//! An output buffer that tracks how many newlines it ends with.
//!
//! The walker decides where blank lines go from a running count of trailing
//! newlines instead of rescanning its output. The count is updated by each
//! append: appending a string sets it to the number of newlines *that string*
//! ends with, so after appending only newlines it can be smaller than the
//! true count, never larger (see [`buf_wf`]).
use vstd::prelude::*;

use crate::text::push_chars;

verus! {

/// Number of `'\n'` characters at the end of `s`.
pub open spec fn trailing_nl(s: Seq<char>) -> nat
    decreases s.len(),
{
    if s.len() > 0 && s.last() == '\n' {
        trailing_nl(s.drop_last()) + 1
    } else {
        0
    }
}

/// Text plus its running trailing-newline count.
pub struct TextBuffer {
    /// The text written so far.
    pub text: Vec<char>,
    /// Running count of trailing newlines.
    pub trailing_newlines: usize,
}

/// The contents of a [`TextBuffer`].
pub struct BufView {
    pub text: Seq<char>,
    pub trailing: usize,
}

impl View for TextBuffer {
    type V = BufView;

    open spec fn view(&self) -> BufView {
        BufView { text: self.text@, trailing: self.trailing_newlines }
    }
}

/// The running count never exceeds the true number of trailing newlines.
pub open spec fn buf_wf(b: BufView) -> bool {
    b.trailing <= trailing_nl(b.text)
}

/// An empty buffer.
pub open spec fn empty_buf() -> BufView {
    BufView { text: Seq::empty(), trailing: 0 }
}

/// Appending a string: nothing for an empty string; otherwise the count
/// becomes the number of newlines the string ends with.
pub open spec fn buf_push_str(b: BufView, s: Seq<char>) -> BufView {
    if s.len() == 0 {
        b
    } else {
        BufView { text: b.text + s, trailing: trailing_nl(s) as usize }
    }
}

/// Appending one character: a newline adds one to the count, anything else
/// resets it.
pub open spec fn buf_push_char(b: BufView, c: char) -> BufView {
    BufView {
        text: b.text.push(c),
        trailing: if c == '\n' {
            (b.trailing + 1) as usize
        } else {
            0
        },
    }
}

/// A newline unless the buffer is empty or already ends a line.
pub open spec fn buf_ensure_newline(b: BufView) -> BufView {
    if b.trailing < 1 && b.text.len() > 0 {
        buf_push_char(b, '\n')
    } else {
        b
    }
}

/// `n` newlines.
pub open spec fn newlines(n: nat) -> Seq<char> {
    Seq::new(n, |i: int| '\n')
}

/// Newlines until the count reaches two, unless the buffer is empty.
pub open spec fn buf_ensure_blank(b: BufView) -> BufView {
    if b.text.len() == 0 || b.trailing >= 2 {
        b
    } else {
        BufView { text: b.text + newlines((2 - b.trailing) as nat), trailing: 2 }
    }
}

/// Where a cut at `pos` lands: `pos`, or the end when `pos` is past it.
pub open spec fn cut_point(b: BufView, pos: usize) -> int {
    if pos <= b.text.len() {
        pos as int
    } else {
        b.text.len() as int
    }
}

/// The buffer truncated at `pos`, with an exact newline count.
pub open spec fn buf_cut(b: BufView, pos: usize) -> BufView {
    let t = b.text.take(cut_point(b, pos));
    BufView { text: t, trailing: trailing_nl(t) as usize }
}

/// The text a cut at `pos` removes.
pub open spec fn buf_tail(b: BufView, pos: usize) -> Seq<char> {
    b.text.subrange(cut_point(b, pos), b.text.len() as int)
}

/// The trailing newlines of `a + s` are at least those of `s`.
pub proof fn lemma_trailing_concat(a: Seq<char>, s: Seq<char>)
    ensures
        trailing_nl(s) <= trailing_nl(a + s),
        trailing_nl(s) <= s.len(),
        trailing_nl(s) < s.len() ==> trailing_nl(a + s) == trailing_nl(s),
    decreases s.len(),
{
    if s.len() > 0 && s.last() == '\n' {
        assert((a + s).drop_last() =~= a + s.drop_last());
        lemma_trailing_concat(a, s.drop_last());
    } else if s.len() > 0 {
        assert((a + s).last() == s.last());
    } else {
        assert(a + s =~= a);
    }
}

/// Appending a newline to a text adds one trailing newline.
pub proof fn lemma_trailing_push_nl(s: Seq<char>)
    ensures
        trailing_nl(s.push('\n')) == trailing_nl(s) + 1,
        trailing_nl(s) <= s.len(),
{
    assert(s.push('\n').drop_last() =~= s);
    lemma_trailing_concat(Seq::empty(), s);
    assert(Seq::<char>::empty() + s =~= s);
}

/// The trailing newlines of the first `n` newlines appended to `s`.
pub proof fn lemma_trailing_newlines(s: Seq<char>, n: nat)
    ensures
        trailing_nl(s + newlines(n)) == trailing_nl(s) + n,
    decreases n,
{
    if n > 0 {
        lemma_trailing_newlines(s, (n - 1) as nat);
        assert((s + newlines(n)).drop_last() =~= s + newlines((n - 1) as nat));
    } else {
        assert(s + newlines(0) =~= s);
    }
}

/// Counts the newlines at the end of `s`.
pub fn count_trailing_newlines(s: &[char]) -> (n: usize)
    ensures
        n == trailing_nl(s@),
{
    let mut i = s.len();
    assert(s@.take(i as int) =~= s@);
    while i > 0 && s[i - 1] == '\n'
        invariant
            i <= s@.len(),
            trailing_nl(s@) == trailing_nl(s@.take(i as int)) + (s@.len() - i),
        decreases i,
    {
        assert(s@.take(i as int).drop_last() =~= s@.take(i - 1));
        i = i - 1;
    }
    s.len() - i
}

impl TextBuffer {
    /// An empty buffer.
    pub fn new() -> (b: TextBuffer)
        ensures
            b@ == empty_buf(),
            buf_wf(b@),
    {
        TextBuffer { text: Vec::new(), trailing_newlines: 0 }
    }

    /// Whether nothing has been written.
    pub fn is_empty(&self) -> (r: bool)
        ensures
            r == (self@.text.len() == 0),
    {
        self.text.len() == 0
    }

    /// Appends a string.
    pub fn push_str(&mut self, s: &[char])
        requires
            buf_wf(old(self)@),
        ensures
            final(self)@ == buf_push_str(old(self)@, s@),
            buf_wf(final(self)@),
    {
        if s.len() == 0 {
            return;
        }
        push_chars(&mut self.text, s);
        self.trailing_newlines = count_trailing_newlines(s);
        proof {
            lemma_trailing_concat(old(self)@.text, s@);
        }
    }

    /// Appends one character.
    pub fn push_char(&mut self, c: char)
        requires
            buf_wf(old(self)@),
        ensures
            final(self)@ == buf_push_char(old(self)@, c),
            buf_wf(final(self)@),
    {
        proof {
            lemma_trailing_concat(Seq::empty(), self@.text);
            assert(Seq::<char>::empty() + self@.text =~= self@.text);
        }
        self.text.push(c);
        let _len = self.text.len();
        if c == '\n' {
            proof {
                lemma_trailing_push_nl(old(self)@.text);
            }
            self.trailing_newlines = self.trailing_newlines + 1;
        } else {
            self.trailing_newlines = 0;
        }
    }

    /// Ends the current line unless the buffer is empty or already ends one.
    pub fn ensure_newline(&mut self)
        requires
            buf_wf(old(self)@),
        ensures
            final(self)@ == buf_ensure_newline(old(self)@),
            buf_wf(final(self)@),
    {
        if self.trailing_newlines < 1 && self.text.len() > 0 {
            self.push_char('\n');
        }
    }

    /// Appends newlines until the running count reaches two (a blank line),
    /// unless the buffer is empty.
    pub fn ensure_blank_line(&mut self)
        requires
            buf_wf(old(self)@),
        ensures
            final(self)@ == buf_ensure_blank(old(self)@),
            buf_wf(final(self)@),
    {
        if self.text.len() == 0 {
            return;
        }
        let ghost start = self@;
        while self.trailing_newlines < 2
            invariant
                buf_wf(self@),
                start.text.len() > 0,
                start.trailing <= self@.trailing,
                self@.trailing <= 2 || self@ == start,
                self@.text == start.text + newlines((self@.trailing - start.trailing) as nat),
            decreases 2 - self.trailing_newlines,
        {
            let ghost before = self@;
            self.push_char('\n');
            assert(self@.text =~= start.text + newlines((self@.trailing - start.trailing) as nat));
        }
        proof {
            if start.trailing >= 2 {
                assert(self@.text =~= start.text);
            }
        }
    }

    /// Truncates the buffer at `pos` (or keeps it whole when `pos` is past the
    /// end), recounts its trailing newlines and returns what was removed.
    pub fn cut(&mut self, pos: usize) -> (tail: Vec<char>)
        ensures
            final(self)@ == buf_cut(old(self)@, pos),
            tail@ == buf_tail(old(self)@, pos),
            buf_wf(final(self)@),
    {
        let len = self.text.len();
        let start = if pos <= len {
            pos
        } else {
            len
        };
        let tail = crate::text::slice_chars(self.text.as_slice(), start, len);
        self.text.truncate(start);
        self.trailing_newlines = count_trailing_newlines(self.text.as_slice());
        tail
    }
}

} // verus!
