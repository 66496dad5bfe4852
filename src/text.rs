//! Splitting an input line into tokens.
use vstd::prelude::*;
use vstd::std_specs::iter::IteratorSpec;

verus! {

/// The characters of `s`, in order.
pub fn chars_of(s: &str) -> (r: Vec<char>)
    ensures
        r@ == s@,
{
    let mut out: Vec<char> = Vec::new();
    let mut it = s.chars();
    loop
        invariant
            out@ + it.remaining() == s@,
            it.decrease() is Some,
        ensures
            out@ == s@,
        decreases it.decrease()->0,
    {
        match it.next() {
            Some(c) => {
                out.push(c);
            },
            None => {
                assert(out@ =~= s@);
                break;
            },
        }
    }
    out
}


/// ASCII whitespace as `u8::is_ascii_whitespace` has it: space, tab, line
/// feed, form feed and carriage return.
pub open spec fn is_ascii_space(c: char) -> bool {
    let u = c as u32;
    u == 9 || u == 10 || u == 12 || u == 13 || u == 32
}

/// Characters with the Unicode `White_Space` property, as `char::is_whitespace`
/// has them.
pub open spec fn is_white_space(c: char) -> bool {
    let u = c as u32;
    (9 <= u <= 13) || u == 32 || u == 0x85 || u == 0xa0 || u == 0x1680 || (0x2000 <= u
        <= 0x200a) || u == 0x2028 || u == 0x2029 || u == 0x202f || u == 0x205f || u == 0x3000
}

/// `s` without its leading whitespace.
pub open spec fn trim_start(s: Seq<char>) -> Seq<char>
    decreases s.len(),
{
    if s.len() > 0 && is_white_space(s[0]) {
        trim_start(s.drop_first())
    } else {
        s
    }
}

/// `s` without its trailing whitespace.
pub open spec fn trim_end(s: Seq<char>) -> Seq<char>
    decreases s.len(),
{
    if s.len() > 0 && is_white_space(s.last()) {
        trim_end(s.drop_last())
    } else {
        s
    }
}

/// `s` without whitespace at either end.
pub open spec fn trim(s: Seq<char>) -> Seq<char> {
    trim_end(trim_start(s))
}

/// Splitting `s` from the left on ASCII whitespace: the tokens already closed,
/// and the token still open at the end of `s` (empty when there is none).
pub open spec fn split_state(s: Seq<char>) -> (Seq<Seq<char>>, Seq<char>)
    decreases s.len(),
{
    if s.len() == 0 {
        (Seq::empty(), Seq::empty())
    } else {
        let (done, cur) = split_state(s.drop_last());
        if !is_ascii_space(s.last()) {
            (done, cur.push(s.last()))
        } else if cur.len() > 0 {
            (done.push(cur), Seq::empty())
        } else {
            (done, Seq::empty())
        }
    }
}

/// The maximal runs of characters of `s` that hold no ASCII whitespace, left
/// to right.
pub open spec fn split_ascii(s: Seq<char>) -> Seq<Seq<char>> {
    let (done, cur) = split_state(s);
    if cur.len() > 0 {
        done.push(cur)
    } else {
        done
    }
}

/// The tokens of one input line: the line is trimmed, then split on runs of
/// ASCII whitespace.
pub open spec fn line_tokens(line: Seq<char>) -> Seq<Seq<char>> {
    split_ascii(trim(line))
}

/// The contents of a sequence of strings.
pub open spec fn strings_view(v: Seq<String>) -> Seq<Seq<char>> {
    v.map_values(|x: String| x@)
}

fn is_space_char(c: char) -> (r: bool)
    ensures
        r == is_ascii_space(c),
{
    let u = c as u32;
    u == 9 || u == 10 || u == 12 || u == 13 || u == 32
}

fn is_white_space_char(c: char) -> (r: bool)
    ensures
        r == is_white_space(c),
{
    let u = c as u32;
    (9 <= u && u <= 13) || u == 32 || u == 0x85 || u == 0xa0 || u == 0x1680 || (0x2000 <= u && u
        <= 0x200a) || u == 0x2028 || u == 0x2029 || u == 0x202f || u == 0x205f || u == 0x3000
}

/// Relies on `String::push`: the character is appended at the end.
#[verifier::external_body]
fn push_char(s: &mut String, c: char)
    ensures
        final(s)@ == old(s)@.push(c),
{
    s.push(c)
}

/// A string holding the characters `cs[from..to]`.
pub fn string_of(cs: &Vec<char>, from: usize, to: usize) -> (r: String)
    requires
        from <= to <= cs.len(),
    ensures
        r@ == cs@.subrange(from as int, to as int),
{
    let mut out = String::new();
    let mut i: usize = from;
    while i < to
        invariant
            from <= i <= to <= cs.len(),
            out@ == cs@.subrange(from as int, i as int),
        decreases to - i,
    {
        push_char(&mut out, cs[i]);
        i = i + 1;
        assert(out@ =~= cs@.subrange(from as int, i as int));
    }
    out
}

/// The tokens of `line`, each as a string of its own.
pub fn split_line(line: &str) -> (r: Vec<String>)
    ensures
        strings_view(r@) == line_tokens(line@),
{
    let cs = chars_of(line);
    let n = cs.len();
    let mut lo: usize = 0;
    assert(cs@.subrange(0, n as int) =~= cs@);
    while lo < n && is_white_space_char(cs[lo])
        invariant
            lo <= n == cs.len(),
            trim_start(cs@) == trim_start(cs@.subrange(lo as int, n as int)),
        decreases n - lo,
    {
        assert(cs@.subrange(lo as int, n as int).drop_first() =~= cs@.subrange(
            lo + 1,
            n as int,
        ));
        lo = lo + 1;
    }
    let mut hi: usize = n;
    while hi > lo && is_white_space_char(cs[hi - 1])
        invariant
            lo <= hi <= n == cs.len(),
            trim(cs@) == trim_end(cs@.subrange(lo as int, hi as int)),
        decreases hi,
    {
        assert(cs@.subrange(lo as int, hi as int).drop_last() =~= cs@.subrange(
            lo as int,
            hi - 1,
        ));
        hi = hi - 1;
    }
    let mut done: Vec<String> = Vec::new();
    let mut cur = String::new();
    let mut cur_len: usize = 0;
    let mut i: usize = lo;
    while i < hi
        invariant
            lo <= i <= hi <= n == cs.len(),
            trim(cs@) == cs@.subrange(lo as int, hi as int),
            strings_view(done@) == split_state(cs@.subrange(lo as int, i as int)).0,
            cur@ == split_state(cs@.subrange(lo as int, i as int)).1,
            cur_len == cur@.len() <= i - lo,
        decreases hi - i,
    {
        let c = cs[i];
        assert(cs@.subrange(lo as int, i + 1).drop_last() =~= cs@.subrange(lo as int, i as int));
        if !is_space_char(c) {
            push_char(&mut cur, c);
            cur_len = cur_len + 1;
        } else if cur_len > 0 {
            let ghost before = done@;
            let ghost closed = cur@;
            done.push(cur);
            assert(strings_view(done@) =~= strings_view(before).push(closed));
            cur = String::new();
            cur_len = 0;
        }
        i = i + 1;
    }
    assert(cs@.subrange(lo as int, hi as int) =~= trim(cs@));
    if cur_len > 0 {
        let ghost before = done@;
        done.push(cur);
        assert(strings_view(done@) =~= strings_view(before).push(done@.last()@));
    }
    done
}


proof fn lemma_split_state_nonempty(s: Seq<char>)
    ensures
        forall|i: int|
            0 <= i < split_state(s).0.len() ==> #[trigger] split_state(s).0[i].len() > 0,
    decreases s.len(),
{
    if s.len() > 0 {
        lemma_split_state_nonempty(s.drop_last());
        let (done, cur) = split_state(s.drop_last());
        if is_ascii_space(s.last()) && cur.len() > 0 {
            assert(split_state(s).0 == done.push(cur));
            assert forall|i: int| 0 <= i < done.len() + 1 implies #[trigger] done.push(cur)[i].len()
                > 0 by {
                if i < done.len() {
                    assert(done[i].len() > 0);
                }
            }
        }
    }
}

/// No token of a line is empty.
pub proof fn lemma_line_tokens_nonempty(line: Seq<char>)
    ensures
        forall|i: int|
            0 <= i < line_tokens(line).len() ==> #[trigger] line_tokens(line)[i].len() > 0,
{
    lemma_split_state_nonempty(trim(line));
}


/// The words of `ws`, with one space between each two.
pub open spec fn join_words(ws: Seq<Seq<char>>) -> Seq<char>
    decreases ws.len(),
{
    if ws.len() == 0 {
        Seq::empty()
    } else if ws.len() == 1 {
        ws[0]
    } else {
        join_words(ws.drop_last()) + seq![' '] + ws.last()
    }
}

/// A word: non-empty, with no whitespace in it.
pub open spec fn is_word(w: Seq<char>) -> bool {
    w.len() > 0 && forall|j: int| 0 <= j < w.len() ==> !is_white_space(#[trigger] w[j])
}

proof fn lemma_split_state_append_word(s: Seq<char>, w: Seq<char>)
    requires
        forall|j: int| 0 <= j < w.len() ==> !is_white_space(#[trigger] w[j]),
    ensures
        split_state(s + w) == (split_state(s).0, split_state(s).1 + w),
    decreases w.len(),
{
    if w.len() == 0 {
        assert(s + w =~= s);
        assert(split_state(s).1 + w =~= split_state(s).1);
    } else {
        let w0 = w.drop_last();
        assert(forall|j: int| 0 <= j < w0.len() ==> w0[j] == w[j]);
        lemma_split_state_append_word(s, w0);
        assert((s + w).drop_last() =~= s + w0);
        assert(!is_white_space(w[w.len() - 1]));
        assert((split_state(s).1 + w0).push(w.last()) =~= split_state(s).1 + w);
    }
}

proof fn lemma_join_ends(ws: Seq<Seq<char>>)
    requires
        ws.len() > 0,
        forall|i: int| 0 <= i < ws.len() ==> is_word(#[trigger] ws[i]),
    ensures
        join_words(ws).len() > 0,
        join_words(ws)[0] == ws[0][0],
        join_words(ws).last() == ws.last().last(),
    decreases ws.len(),
{
    if ws.len() > 1 {
        let init = ws.drop_last();
        assert(forall|i: int| 0 <= i < init.len() ==> init[i] == ws[i]);
        lemma_join_ends(init);
        assert(is_word(ws[ws.len() - 1]));
    } else {
        assert(is_word(ws[0]));
    }
}

proof fn lemma_split_join(ws: Seq<Seq<char>>)
    requires
        ws.len() > 0,
        forall|i: int| 0 <= i < ws.len() ==> is_word(#[trigger] ws[i]),
    ensures
        split_state(join_words(ws)) == (ws.drop_last(), ws.last()),
    decreases ws.len(),
{
    if ws.len() == 1 {
        assert(is_word(ws[0]));
        lemma_split_state_append_word(Seq::empty(), ws[0]);
        assert(Seq::<char>::empty() + ws[0] =~= ws[0]);
        assert(ws.drop_last() =~= Seq::<Seq<char>>::empty());
    } else {
        let init = ws.drop_last();
        assert(forall|i: int| 0 <= i < init.len() ==> init[i] == ws[i]);
        lemma_split_join(init);
        let spaced = join_words(init) + seq![' '];
        assert(spaced.drop_last() =~= join_words(init));
        assert(is_word(init.last()));
        assert(init.drop_last().push(init.last()) =~= init);
        assert(split_state(spaced) == (init, Seq::<char>::empty()));
        assert(is_word(ws.last()));
        lemma_split_state_append_word(spaced, ws.last());
        assert(Seq::<char>::empty() + ws.last() =~= ws.last());
    }
}

/// A line made of words separated by single spaces splits back into exactly
/// those words, in order.
pub proof fn lemma_line_tokens_of_words(ws: Seq<Seq<char>>)
    requires
        forall|i: int| 0 <= i < ws.len() ==> is_word(#[trigger] ws[i]),
    ensures
        line_tokens(join_words(ws)) == ws,
{
    let line = join_words(ws);
    if ws.len() == 0 {
        assert(split_state(Seq::<char>::empty()) == (Seq::<Seq<char>>::empty(), Seq::<char>::empty()));
    } else {
        lemma_join_ends(ws);
        assert(is_word(ws[0]));
        assert(is_word(ws.last()));
        assert(!is_white_space(line[0]));
        assert(trim_start(line) == line);
        assert(!is_white_space(line.last()));
        assert(trim_end(line) == line);
        lemma_split_join(ws);
        assert(ws.drop_last().push(ws.last()) =~= ws);
    }
}

} // verus!
