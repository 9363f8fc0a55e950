//! Splitting one data line into streams of tokens.
use vstd::prelude::*;
use vstd::std_specs::iter::IteratorSpec;
use vstd::string::{axiom_spec_iter, next_postcondition};

verus! {

/// The pieces of `s` between the characters that satisfy `is_delim`, in order,
/// empty pieces included: `k` delimiters give `k + 1` pieces.
pub open spec fn split_where(s: Seq<char>, is_delim: spec_fn(char) -> bool) -> Seq<Seq<char>>
    decreases s.len(),
{
    if s.len() == 0 {
        seq![Seq::empty()]
    } else {
        let before = split_where(s.drop_last(), is_delim);
        if is_delim(s.last()) {
            before.push(Seq::empty())
        } else {
            before.update(before.len() - 1, before.last().push(s.last()))
        }
    }
}

/// The stream delimiter as a predicate.
pub open spec fn is_char(d: char) -> spec_fn(char) -> bool {
    |c: char| c == d
}

/// The characters that separate tokens inside a stream: a comma and a space.
pub open spec fn is_field_sep() -> spec_fn(char) -> bool {
    |c: char| c == ',' || c == ' '
}

/// A piece that holds at least one character.
pub open spec fn non_empty() -> spec_fn(Seq<char>) -> bool {
    |t: Seq<char>| t.len() > 0
}

/// The tokens of one stream segment: its non-empty pieces between separators.
pub open spec fn tokens_of(segment: Seq<char>) -> Seq<Seq<char>> {
    split_where(segment, is_field_sep()).filter(non_empty())
}

/// The streams of `line`: one token list for each segment between stream
/// delimiters, empty lists included.
pub open spec fn streams_of(line: Seq<char>, d: char) -> Seq<Seq<Seq<char>>> {
    split_where(line, is_char(d)).map_values(|segment: Seq<char>| tokens_of(segment))
}

/// The text of each token of a stream.
pub open spec fn tokens_view(tokens: Seq<&str>) -> Seq<Seq<char>> {
    tokens.map_values(|t: &str| t@)
}

/// The text of each token of each stream.
pub open spec fn streams_view(streams: Seq<Vec<&str>>) -> Seq<Seq<Seq<char>>> {
    streams.map_values(|v: Vec<&str>| tokens_view(v@))
}

/// The characters of `s`, in order.
fn chars_of(s: &str) -> (r: Vec<char>)
    ensures
        r@ == s@,
{
    broadcast use axiom_spec_iter, next_postcondition;

    let mut it = s.chars();
    let mut out: Vec<char> = Vec::new();
    loop
        invariant
            out@ + it.remaining() == s@,
            it.decrease() is Some,
        decreases it.decrease()->0,
    {
        match it.next() {
            Some(c) => {
                out.push(c);
                assert(out@ + it.remaining() =~= s@);
            },
            None => {
                assert(out@ =~= s@);
                return out;
            },
        }
    }
}

/// Splitting never yields an empty list of pieces.
proof fn lemma_split_nonempty(s: Seq<char>, is_delim: spec_fn(char) -> bool)
    ensures
        split_where(s, is_delim).len() >= 1,
    decreases s.len(),
{
    if s.len() > 0 {
        lemma_split_nonempty(s.drop_last(), is_delim);
    }
}

/// One more character either opens a new empty piece or extends the last one.
proof fn lemma_split_push(s: Seq<char>, c: char, is_delim: spec_fn(char) -> bool)
    ensures
        ({
            let before = split_where(s, is_delim);
            let after = split_where(s.push(c), is_delim);
            &&& before.len() >= 1
            &&& is_delim(c) ==> after == before.push(Seq::empty())
            &&& !is_delim(c) ==> after == before.update(
                before.len() - 1,
                before.last().push(c),
            )
        }),
{
    lemma_split_nonempty(s, is_delim);
    assert(s.push(c).drop_last() =~= s);
}

/// Filtering a sequence filters all but its last element, then takes that one or not.
proof fn lemma_filter_last(s: Seq<Seq<char>>, keep: spec_fn(Seq<char>) -> bool)
    requires
        s.len() > 0,
    ensures
        s.filter(keep) == if keep(s.last()) {
            s.drop_last().filter(keep).push(s.last())
        } else {
            s.drop_last().filter(keep)
        },
{
    reveal(Seq::filter);
}

/// Appends `line[start..end]` to `tokens` when it is not empty.
fn push_token<'a>(line: &'a str, start: usize, end: usize, tokens: &mut Vec<&'a str>)
    requires
        start <= end <= line@.len(),
    ensures
        tokens_view(final(tokens)@) == if start < end {
            tokens_view(old(tokens)@).push(line@.subrange(start as int, end as int))
        } else {
            tokens_view(old(tokens)@)
        },
{
    if start < end {
        let t = line.substring_char(start, end);
        tokens.push(t);
        assert(tokens_view(tokens@) =~= tokens_view(old(tokens)@).push(t@));
    }
}

/// Splits `line` at every `stream_delimiter` into streams, and each stream at
/// every comma and space into tokens.
///
/// Empty tokens are dropped; a stream with no token is kept as an empty list.
pub fn split_line_into_streams<'a>(stream_delimiter: char, line: &'a String) -> (r: Vec<
    Vec<&'a str>,
>)
    ensures
        streams_view(r@) == streams_of(line@, stream_delimiter),
        forall|i: int, j: int|
            0 <= i < r@.len() && 0 <= j < r@[i]@.len() ==> (#[trigger] r@[i]@[j])@.len() > 0,
{
    let text: &'a str = line.as_str();
    let chars = chars_of(text);
    let ghost l = text@;
    let ghost d = is_char(stream_delimiter);
    let ghost sep = is_field_sep();
    let mut streams: Vec<Vec<&'a str>> = Vec::new();
    let mut tokens: Vec<&'a str> = Vec::new();
    let mut seg_start: usize = 0;
    let mut tok_start: usize = 0;
    let mut i: usize = 0;
    proof {
        reveal(Seq::filter);
        assert(l.take(0) =~= Seq::<char>::empty());
        assert(l.subrange(0, 0) =~= Seq::<char>::empty());
        assert(streams_view(streams@) =~= Seq::<Seq<Seq<char>>>::empty());
        assert(tokens_view(tokens@) =~= Seq::<Seq<char>>::empty());
    }
    while i < chars.len()
        invariant
            l == line@,
            text@ == l,
            d == is_char(stream_delimiter),
            sep == is_field_sep(),
            chars@ == l,
            seg_start <= tok_start <= i <= l.len(),
            split_where(l.take(i as int), d).len() == streams@.len() + 1,
            split_where(l.take(i as int), d).last() == l.subrange(seg_start as int, i as int),
            streams_view(streams@) == split_where(l.take(i as int), d).drop_last().map_values(
                |segment: Seq<char>| tokens_of(segment),
            ),
            split_where(l.subrange(seg_start as int, i as int), sep).last() == l.subrange(
                tok_start as int,
                i as int,
            ),
            tokens_view(tokens@) == split_where(
                l.subrange(seg_start as int, i as int),
                sep,
            ).drop_last().filter(non_empty()),
        decreases chars.len() - i,
    {
        let c = chars[i];
        let ghost outer = split_where(l.take(i as int), d);
        let ghost seg = l.subrange(seg_start as int, i as int);
        let ghost inner = split_where(seg, sep);
        proof {
            assert(l.take(i + 1) =~= l.take(i as int).push(c));
            assert(l.subrange(seg_start as int, i + 1) =~= seg.push(c));
            assert(l.subrange(tok_start as int, i + 1) =~= l.subrange(
                tok_start as int,
                i as int,
            ).push(c));
            lemma_split_push(l.take(i as int), c, d);
            lemma_split_push(seg, c, sep);
            lemma_filter_last(inner, non_empty());
        }
        if c == stream_delimiter {
            push_token(text, tok_start, i, &mut tokens);
            proof {
                assert(tokens_view(tokens@) == tokens_of(seg));
            }
            let ghost before = streams@;
            let ghost pushed = tokens@;
            streams.push(tokens);
            tokens = Vec::new();
            seg_start = i + 1;
            tok_start = i + 1;
            proof {
                let new_outer = split_where(l.take(i + 1), d);
                assert(new_outer.drop_last() =~= outer);
                assert(outer =~= outer.drop_last().push(seg));
                assert(streams_view(streams@) =~= streams_view(before).push(tokens_view(pushed)));
                assert(streams_view(streams@) =~= new_outer.drop_last().map_values(
                    |segment: Seq<char>| tokens_of(segment),
                ));
                assert(l.subrange(i + 1, i + 1) =~= Seq::<char>::empty());
                assert(tokens_view(tokens@) =~= Seq::<Seq<char>>::empty());
                assert(split_where(Seq::<char>::empty(), sep).drop_last() =~= Seq::<
                    Seq<char>,
                >::empty());
                reveal(Seq::filter);
            }
        } else if c == ',' || c == ' ' {
            push_token(text, tok_start, i, &mut tokens);
            tok_start = i + 1;
            proof {
                let new_outer = split_where(l.take(i + 1), d);
                assert(new_outer.drop_last() =~= outer.drop_last());
                let new_inner = split_where(l.subrange(seg_start as int, i + 1), sep);
                assert(new_inner.drop_last() =~= inner);
                assert(l.subrange(i + 1, i + 1) =~= Seq::<char>::empty());
            }
        } else {
            proof {
                let new_outer = split_where(l.take(i + 1), d);
                assert(new_outer.drop_last() =~= outer.drop_last());
                let new_inner = split_where(l.subrange(seg_start as int, i + 1), sep);
                assert(new_inner.drop_last() =~= inner.drop_last());
            }
        }
        i = i + 1;
    }
    let ghost outer = split_where(l.take(i as int), d);
    let ghost seg = l.subrange(seg_start as int, i as int);
    proof {
        lemma_split_nonempty(seg, sep);
        lemma_filter_last(split_where(seg, sep), non_empty());
    }
    push_token(text, tok_start, i, &mut tokens);
    let ghost before = streams@;
    let ghost pushed = tokens@;
    streams.push(tokens);
    proof {
        assert(streams_view(streams@) =~= streams_view(before).push(tokens_view(pushed)));
        assert(l.take(i as int) =~= l);
        assert(outer.drop_last().push(outer.last()) =~= outer);
        assert(streams_view(streams@) =~= outer.map_values(
            |segment: Seq<char>| tokens_of(segment),
        ));
        assert forall|a: int, b: int|
            0 <= a < streams@.len() && 0 <= b < streams@[a]@.len() implies (
            #[trigger] streams@[a]@[b])@.len() > 0 by {
            assert(streams_view(streams@)[a] == tokens_view(streams@[a]@));
            assert(tokens_view(streams@[a]@)[b] == streams@[a]@[b]@);
            split_where(outer[a], is_field_sep()).lemma_filter_pred(non_empty(), b);
        }
    }
    streams
}

/// Splitting depends on the delimiter and the line alone: any two results for
/// the same delimiter and line hold the same streams of the same tokens.
pub proof fn law_split_is_pure(
    first: Seq<Vec<&str>>,
    second: Seq<Vec<&str>>,
    line: Seq<char>,
    stream_delimiter: char,
)
    requires
        streams_view(first) == streams_of(line, stream_delimiter),
        streams_view(second) == streams_of(line, stream_delimiter),
    ensures
        streams_view(first) == streams_view(second),
        first.len() == second.len(),
        forall|i: int| 0 <= i < first.len() ==> (#[trigger] first[i])@.len() == second[i]@.len(),
        forall|i: int, j: int|
            0 <= i < first.len() && 0 <= j < first[i]@.len() ==> (#[trigger] first[i]@[j])@
                == second[i]@[j]@,
{
    assert(streams_view(first).len() == first.len());
    assert(streams_view(second).len() == second.len());
    assert forall|i: int| 0 <= i < first.len() implies (#[trigger] first[i])@.len()
        == second[i]@.len() by {
        assert(streams_view(first)[i] == tokens_view(first[i]@));
        assert(streams_view(second)[i] == tokens_view(second[i]@));
    }
    assert forall|i: int, j: int| 0 <= i < first.len() && 0 <= j < first[i]@.len() implies (
    #[trigger] first[i]@[j])@ == second[i]@[j]@ by {
        assert(streams_view(first)[i] == tokens_view(first[i]@));
        assert(streams_view(second)[i] == tokens_view(second[i]@));
        assert(tokens_view(first[i]@)[j] == first[i]@[j]@);
        assert(tokens_view(second[i]@)[j] == second[i]@[j]@);
    }
}

} // verus!
