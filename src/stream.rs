//! The token buffer and the reads that consume it.
use vstd::prelude::*;

use crate::parse::FromBuf;
use crate::text::chars_of;
use crate::text::is_word;
use crate::text::join_words;
use crate::text::lemma_line_tokens_of_words;
use crate::text::line_tokens;
use crate::text::lemma_line_tokens_nonempty;
use crate::text::split_line;
use crate::text::string_of;
use crate::text::strings_view;

verus! {

/// The buffer after a refill with `line`: unchanged where it still holds a
/// token, else the tokens of `line`.
pub open spec fn refilled(buf: Seq<Seq<char>>, line: Seq<char>) -> Seq<Seq<char>> {
    if buf.len() > 0 {
        buf
    } else {
        buf + line_tokens(line)
    }
}

/// The buffer after one character is taken from its front token: the token
/// keeps its other characters, and leaves once it has none.
pub open spec fn after_char(buf: Seq<Seq<char>>) -> Seq<Seq<char>> {
    if buf[0].len() > 1 {
        buf.update(0, buf[0].drop_first())
    } else {
        buf.drop_first()
    }
}

/// A buffer of tokens not yet consumed, refilled one input line at a time.
///
/// Tokens are taken from the front, in the order in which they stood on
/// their lines.
pub struct InputStream {
    buf: Vec<String>,
}

impl View for InputStream {
    type V = Seq<Seq<char>>;

    closed spec fn view(&self) -> Seq<Seq<char>> {
        strings_view(self.buf@)
    }
}

impl InputStream {
    /// No token in the buffer is empty.
    pub open spec fn wf(&self) -> bool {
        forall|i: int| 0 <= i < self@.len() ==> #[trigger] self@[i].len() > 0
    }

    /// An empty stream.
    pub fn new() -> (s: Self)
        ensures
            s@ == Seq::<Seq<char>>::empty(),
            s.wf(),
    {
        let s = InputStream { buf: Vec::new() };
        assert(s@ =~= Seq::<Seq<char>>::empty());
        s
    }

    /// Whether the buffer is empty, so that the next read needs a line first.
    pub fn needs_line(&self) -> (r: bool)
        ensures
            r == (self@.len() == 0),
    {
        self.buf.len() == 0
    }

    /// Refills an empty buffer with the tokens of `line`; does nothing where
    /// the buffer still holds a token. Returns whether `line` was taken.
    ///
    /// A blank line leaves the buffer empty: the caller then needs another
    /// line before it reads.
    pub fn refill(&mut self, line: &str) -> (used: bool)
        requires
            old(self).wf(),
        ensures
            used == (old(self)@.len() == 0),
            final(self)@ == refilled(old(self)@, line@),
            final(self).wf(),
    {
        if self.buf.len() > 0 {
            return false;
        }
        let tokens = split_line(line);
        proof {
            lemma_line_tokens_nonempty(line@);
            assert(strings_view(self.buf@) + strings_view(tokens@) =~= line_tokens(line@));
        }
        self.buf = tokens;
        true
    }

    /// Takes the front token and reads it as a `T`; a token that spells no
    /// `T` gives `T::default()`. The token is consumed either way.
    pub fn read<T: FromBuf + Default>(&mut self) -> (r: T)
        requires
            old(self).wf(),
            old(self)@.len() > 0,
        ensures
            final(self)@ == old(self)@.drop_first(),
            final(self).wf(),
            (exists|v: T| T::spells(old(self)@[0], v)) ==> T::spells(old(self)@[0], r),
            (forall|v: T| !T::spells(old(self)@[0], v)) ==> call_ensures(T::default, (), r),
    {
        let ghost before = self.buf@;
        let r = match T::from_buf(&mut self.buf) {
            Ok(v) => v,
            Err(_) => T::default(),
        };
        assert(strings_view(self.buf@) =~= strings_view(before).drop_first());
        r
    }

    /// Takes the front token and returns it as it stands.
    pub fn read_str(&mut self) -> (r: String)
        requires
            old(self).wf(),
            old(self)@.len() > 0,
        ensures
            r@ == old(self)@[0],
            final(self)@ == old(self)@.drop_first(),
            final(self).wf(),
    {
        let ghost before = self.buf@;
        let r = self.buf.remove(0);
        assert(strings_view(self.buf@) =~= strings_view(before).drop_first());
        r
    }

    /// Takes the first character of the front token; the token leaves the
    /// buffer with its last character.
    pub fn read_char(&mut self) -> (r: char)
        requires
            old(self).wf(),
            old(self)@.len() > 0,
        ensures
            r == old(self)@[0][0],
            final(self)@ == after_char(old(self)@),
            final(self).wf(),
    {
        let ghost before = self.buf@;
        let front = self.buf.remove(0);
        assert(strings_view(self.buf@) =~= strings_view(before).drop_first());
        let cs = chars_of(front.as_str());
        assert(cs@ == strings_view(before)[0]);
        let c = cs[0];
        if cs.len() > 1 {
            let rest = string_of(&cs, 1, cs.len());
            self.buf.insert(0, rest);
            assert(strings_view(self.buf@) =~= strings_view(before).update(
                0,
                strings_view(before)[0].drop_first(),
            ));
        }
        c
    }
}

/// An empty buffer refilled with words separated by single spaces holds
/// exactly those words, in order: whole-token reads then hand them out one by
/// one, front first, and leave the buffer empty after the last.
pub proof fn lemma_refill_with_words(ws: Seq<Seq<char>>)
    requires
        forall|i: int| 0 <= i < ws.len() ==> is_word(#[trigger] ws[i]),
    ensures
        refilled(Seq::empty(), join_words(ws)) == ws,
{
    lemma_line_tokens_of_words(ws);
    assert(Seq::<Seq<char>>::empty() + ws =~= ws);
}

/// Refilling twice with nothing consumed between takes at most one line:
/// once a refill has left a token in the buffer, the next refill takes no
/// line and changes nothing.
pub proof fn lemma_refill_idempotent(buf: Seq<Seq<char>>, first: Seq<char>, second: Seq<char>)
    requires
        refilled(buf, first).len() > 0,
    ensures
        refilled(refilled(buf, first), second) == refilled(buf, first),
{
}

} // verus!
