//! A lazy view of a line sequence that skips comment lines.
use crate::read::{first_index, lemma_first_index, lemma_first_index_hit};
use crate::source::{LineItem, LineSource};
use vstd::prelude::*;

verus! {

/// A line whose text begins with `comment_char`. A failure is never a comment.
pub open spec fn is_comment(item: LineItem, comment_char: char) -> bool {
    item is Ok && item->Ok_0@.len() > 0 && item->Ok_0@[0] == comment_char
}

/// The elements that a comment filter lets through.
pub open spec fn kept(comment_char: char) -> spec_fn(LineItem) -> bool {
    |item: LineItem| !is_comment(item, comment_char)
}

/// A line source over `inner` that skips every line beginning with the comment
/// character, and passes failures and all other lines through in order.
///
/// Each call of `next_line` pulls from `inner` only as far as the next element
/// that is let through.
pub struct CommentFilter<S: LineSource> {
    comment_char: char,
    inner: S,
}

/// Wraps `lines` in a view that skips lines beginning with `comment_char`.
pub fn filter_out_comment_lines<S: LineSource>(comment_char: char, lines: S) -> (r: CommentFilter<
    S,
>)
    ensures
        r.pending() == lines.pending().filter(kept(comment_char)),
        r.source_pending() == lines.pending(),
        r.comment_char() == comment_char,
{
    CommentFilter { comment_char, inner: lines }
}

impl<S: LineSource> CommentFilter<S> {
    /// What the wrapped source will still hand out, comments included.
    pub closed spec fn source_pending(&self) -> Seq<LineItem> {
        self.inner.pending()
    }

    /// The character that marks a comment line.
    pub closed spec fn comment_char(&self) -> char {
        self.comment_char
    }

    /// Gives back the wrapped source, positioned after the last element pulled.
    pub fn into_inner(self) -> (r: S)
        ensures
            r.pending() == self.source_pending(),
    {
        self.inner
    }
}

/// Filtering a sequence takes its first element, or not, and then filters the rest.
proof fn lemma_filter_front(s: Seq<LineItem>, keep: spec_fn(LineItem) -> bool)
    requires
        s.len() > 0,
    ensures
        keep(s[0]) ==> s.filter(keep) == seq![s[0]] + s.drop_first().filter(keep),
        !keep(s[0]) ==> s.filter(keep) == s.drop_first().filter(keep),
{
    assert(s =~= seq![s[0]] + s.drop_first());
    s.drop_first().lemma_filter_prepend(s[0], keep);
}

/// Reading through a comment filter sees no comment line, and sees every other
/// element of the underlying sequence: a bounded read then counts the lines
/// that are not comments, and only those. Where the underlying sequence holds
/// no comment, the filter hands out exactly that sequence.
pub proof fn law_filter_skips_only_comments(items: Seq<LineItem>, comment_char: char)
    ensures
        ({
            let seen = items.filter(kept(comment_char));
            &&& forall|j: int|
                0 <= j < seen.len() ==> !is_comment(#[trigger] seen[j], comment_char)
                    && items.contains(seen[j])
            &&& forall|i: int|
                0 <= i < items.len() && !is_comment(#[trigger] items[i], comment_char)
                    ==> seen.contains(items[i])
            &&& (forall|i: int| 0 <= i < items.len() ==> !is_comment(#[trigger] items[i], comment_char))
                ==> seen == items
        }),
    decreases items.len(),
{
    broadcast use vstd::seq_lib::group_filter_ensures;

    let seen = items.filter(kept(comment_char));
    assert forall|j: int| 0 <= j < seen.len() implies !is_comment(#[trigger] seen[j], comment_char)
        && items.contains(seen[j]) by {
        assert(seen.contains(seen[j]));
        items.lemma_filter_contains_rev(kept(comment_char), seen[j]);
    }
    assert forall|i: int| 0 <= i < items.len() && !is_comment(#[trigger] items[i], comment_char)
        implies seen.contains(items[i]) by {
        items.lemma_filter_contains(kept(comment_char), i);
    }
    if forall|i: int| 0 <= i < items.len() ==> !is_comment(#[trigger] items[i], comment_char) {
        if items.len() > 0 {
            let rest = items.drop_last();
            assert forall|i: int| 0 <= i < rest.len() implies !is_comment(#[trigger] rest[i], comment_char) by {
                assert(rest[i] == items[i]);
            }
            law_filter_skips_only_comments(rest, comment_char);
            reveal(Seq::filter);
            assert(!is_comment(items[items.len() - 1], comment_char));
            assert(seen =~= items);
        } else {
            reveal(Seq::filter);
        }
    }
}

impl<S: LineSource> LineSource for CommentFilter<S> {
    closed spec fn pending(&self) -> Seq<LineItem> {
        self.inner.pending().filter(kept(self.comment_char))
    }

    /// Pulls from the wrapped source up to and including the next element that
    /// is let through, or to its end, and no further.
    fn next_line(&mut self) -> (r: Option<LineItem>)
        ensures
            final(self).comment_char() == old(self).comment_char(),
            ({
                let src = old(self).source_pending();
                let j = first_index(src, kept(old(self).comment_char()));
                final(self).source_pending() == if j < src.len() {
                    src.skip(j + 1)
                } else {
                    Seq::<LineItem>::empty()
                }
            }),
    {
        let ghost src = self.inner.pending();
        let ghost mut i: int = 0;
        proof {
            lemma_first_index_hit(src, kept(self.comment_char));
        }
        loop
            invariant
                self.comment_char == old(self).comment_char,
                self.pending() == old(self).pending(),
                src == old(self).inner.pending(),
                0 <= i <= src.len(),
                self.inner.pending() == src.skip(i),
                forall|k: int| 0 <= k < i ==> !(#[trigger] kept(self.comment_char)(src[k])),
            decreases self.inner.pending().len(),
        {
            let ghost before = self.inner.pending();
            proof {
                if i < src.len() {
                    assert(before[0] == src[i]);
                }
            }
            let item = self.inner.next_line();
            match item {
                None => {
                    proof {
                        reveal(Seq::filter);
                        lemma_first_index(src, kept(self.comment_char), i);
                    }
                    return None;
                },
                Some(Ok(l)) => {
                    proof {
                        lemma_filter_front(before, kept(self.comment_char));
                    }
                    if !(l.unicode_len() > 0 && l.get_char(0) == self.comment_char) {
                        proof {
                            lemma_first_index(src, kept(self.comment_char), i);
                            assert(self.inner.pending() =~= src.skip(i + 1));
                        }
                        return Some(Ok(l));
                    }
                    proof {
                        assert(self.inner.pending() =~= src.skip(i + 1));
                        i = i + 1;
                    }
                },
                Some(Err(e)) => {
                    proof {
                        lemma_filter_front(before, kept(self.comment_char));
                        lemma_first_index(src, kept(self.comment_char), i);
                        assert(self.inner.pending() =~= src.skip(i + 1));
                    }
                    return Some(Err(e));
                },
            }
        }
    }
}

} // verus!
