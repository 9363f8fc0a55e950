//! Reading a bounded number of lines, or up to a marker line, into one text block.
use crate::source::{LineItem, LineSource};
use vstd::prelude::*;

verus! {

/// The text of an element: the line itself, or nothing for a failure.
pub open spec fn item_text(item: LineItem) -> Seq<char> {
    match item {
        Ok(l) => l@,
        Err(_) => Seq::empty(),
    }
}

/// The text block of `items`: each line followed by a newline, in order.
pub open spec fn block_of(items: Seq<LineItem>) -> Seq<char>
    decreases items.len(),
{
    if items.len() == 0 {
        Seq::empty()
    } else {
        block_of(items.drop_last()) + item_text(items.last()) + seq!['\n']
    }
}

/// The position of the first element of `items` that satisfies `stop`, or
/// `items.len()` when none does.
pub open spec fn first_index(items: Seq<LineItem>, stop: spec_fn(LineItem) -> bool) -> int
    decreases items.len(),
{
    if items.len() == 0 {
        0
    } else if stop(items[0]) {
        0
    } else {
        1 + first_index(items.drop_first(), stop)
    }
}

/// Whether `s` begins with `prefix`, character by character.
pub open spec fn starts_with(s: Seq<char>, prefix: Seq<char>) -> bool {
    prefix.len() <= s.len() && s.take(prefix.len() as int) == prefix
}

/// A failure element.
pub open spec fn is_failure(item: LineItem) -> bool {
    item is Err
}

/// Where a bounded read stops early: at a failure.
pub open spec fn failure_stop() -> spec_fn(LineItem) -> bool {
    |item: LineItem| is_failure(item)
}

/// A line whose text begins with `marker`.
pub open spec fn is_marker_line(item: LineItem, marker: Seq<char>) -> bool {
    item is Ok && starts_with(item->Ok_0@, marker)
}

/// Where a marker search stops: at a failure or at a marker line.
pub open spec fn marker_stop(marker: Seq<char>) -> spec_fn(LineItem) -> bool {
    |item: LineItem| is_failure(item) || is_marker_line(item, marker)
}

/// `first_index` is the place where `stop` first holds.
pub proof fn lemma_first_index(items: Seq<LineItem>, stop: spec_fn(LineItem) -> bool, i: int)
    requires
        0 <= i <= items.len(),
        forall|k: int| 0 <= k < i ==> !stop(#[trigger] items[k]),
        i == items.len() || stop(items[i]),
    ensures
        first_index(items, stop) == i,
    decreases i,
{
    if i > 0 {
        assert forall|k: int| 0 <= k < i - 1 implies !stop(#[trigger] items.drop_first()[k]) by {
            assert(items.drop_first()[k] == items[k + 1]);
        }
        if i < items.len() {
            assert(items.drop_first()[i - 1] == items[i]);
        }
        assert(!stop(items[0]));
        lemma_first_index(items.drop_first(), stop, i - 1);
    }
}

/// The block of one more element extends the block of the ones before it.
pub proof fn lemma_block_step(items: Seq<LineItem>, i: int)
    requires
        0 <= i < items.len(),
    ensures
        block_of(items.take(i + 1)) == block_of(items.take(i)) + item_text(items[i]) + seq!['\n'],
{
    assert(items.take(i + 1).drop_last() =~= items.take(i));
}

/// Reads at most `n` lines from `lines` and returns them as one text block.
///
/// Stops early, with success, at the end of the sequence. A failure among the
/// elements read ends the call with that failure; what was read before it is
/// consumed and not returned.
pub fn read_n_lines<S: LineSource>(n: u32, lines: &mut S) -> (r: std::io::Result<String>)
    ensures
        ({
            let p = old(lines).pending();
            let m = if (n as int) < p.len() { n as int } else { p.len() as int };
            let f = first_index(p, failure_stop());
            &&& r is Ok <==> m <= f
            &&& r is Ok ==> r->Ok_0@ == block_of(p.take(m)) && final(lines).pending() == p.skip(
                m,
            )
            &&& r is Err ==> r == p[f] && final(lines).pending() == p.skip(f + 1)
            &&& (forall|k: int| 0 <= k < p.len() ==> #[trigger] p[k] is Ok) ==> r is Ok
                && r->Ok_0@ == block_of(p.take(m)) && final(lines).pending() == p.skip(m)
            &&& n == 0 ==> r is Ok && r->Ok_0@.len() == 0 && final(lines).pending() == p
            &&& (exists|k: int| 0 <= k < m && is_failure(#[trigger] p[k])) ==> r is Err
        }),
{
    let ghost p = lines.pending();
    let mut res = String::new();
    let mut i: u32 = 0;
    while i < n
        invariant
            p == old(lines).pending(),
            i <= n,
            i <= p.len(),
            lines.pending() == p.skip(i as int),
            forall|k: int| 0 <= k < i ==> !is_failure(#[trigger] p[k]),
            res@ == block_of(p.take(i as int)),
        decreases n - i,
    {
        let line = lines.next_line();
        match line {
            Some(Ok(l)) => {
                proof {
                    assert(p.skip(i as int)[0] == p[i as int]);
                    lemma_block_step(p, i as int);
                }
                res.append(l.as_str());
                res.append("\n");
                proof {
                    reveal_strlit("\n");
                    assert(lines.pending() =~= p.skip(i + 1));
                }
                i = i + 1;
            },
            Some(Err(e)) => {
                proof {
                    assert(p.skip(i as int)[0] == p[i as int]);
                    lemma_first_index(p, failure_stop(), i as int);
                    assert(lines.pending() =~= p.skip(i + 1));
                }
                return Err(e);
            },
            None => {
                proof {
                    lemma_first_index(p, failure_stop(), i as int);
                    assert(p.skip(0) =~= p);
                }
                return Ok(res);
            },
        }
    }
    proof {
        lemma_first_index_hit(p, failure_stop());
        assert(p.skip(0) =~= p);
    }
    Ok(res)
}

/// Whether `line` begins with `prefix`.
pub fn line_starts_with(line: &str, prefix: &str) -> (r: bool)
    ensures
        r == starts_with(line@, prefix@),
{
    let plen = prefix.unicode_len();
    if plen > line.unicode_len() {
        return false;
    }
    let mut j: usize = 0;
    while j < plen
        invariant
            plen == prefix@.len(),
            plen <= line@.len(),
            j <= plen,
            forall|k: int| 0 <= k < j ==> line@[k] == prefix@[k],
        decreases plen - j,
    {
        if line.get_char(j) != prefix.get_char(j) {
            assert(line@.take(plen as int)[j as int] != prefix@[j as int]);
            return false;
        }
        j = j + 1;
    }
    assert(line@.take(plen as int) =~= prefix@);
    true
}

/// Reads lines from `lines` up to the first one that begins with `marker`, and
/// returns the lines before it as one text block.
///
/// The marker line is consumed and not returned. Without a marker line the
/// whole sequence is read. A failure ends the call with that failure; what was
/// read before it is consumed and not returned.
pub fn read_until_line_starts_with<S: LineSource>(marker: &str, lines: &mut S) -> (r:
    std::io::Result<String>)
    ensures
        ({
            let p = old(lines).pending();
            let f = first_index(p, marker_stop(marker@));
            &&& 0 <= f <= p.len()
            &&& r is Ok <==> (f == p.len() || !is_failure(p[f]))
            &&& r is Ok ==> r->Ok_0@ == block_of(p.take(f))
            &&& r is Err ==> r == p[f]
            &&& (exists|k: int|
                0 <= k < p.len() && is_failure(#[trigger] p[k]) && forall|j: int|
                    0 <= j < k ==> !is_marker_line(#[trigger] p[j], marker@)) ==> r is Err
            &&& final(lines).pending() == if f < p.len() {
                p.skip(f + 1)
            } else {
                Seq::<LineItem>::empty()
            }
        }),
{
    let ghost p = lines.pending();
    proof {
        lemma_first_index_hit(p, marker_stop(marker@));
    }
    let ghost mut i: int = 0;
    let mut res = String::new();
    loop
        invariant
            p == old(lines).pending(),
            0 <= i <= p.len(),
            lines.pending() == p.skip(i),
            forall|k: int| 0 <= k < i ==> !(#[trigger] marker_stop(marker@)(p[k])),
            res@ == block_of(p.take(i)),
        decreases p.len() - i,
    {
        let line = lines.next_line();
        match line {
            Some(Ok(l)) => {
                proof {
                    assert(p.skip(i)[0] == p[i]);
                }
                if line_starts_with(l.as_str(), marker) {
                    proof {
                        lemma_first_index(p, marker_stop(marker@), i);
                        lemma_no_failure_before_marker(p, marker@);
                        assert(lines.pending() =~= p.skip(i + 1));
                    }
                    return Ok(res);
                }
                proof {
                    lemma_block_step(p, i);
                }
                res.append(l.as_str());
                res.append("\n");
                proof {
                    reveal_strlit("\n");
                    assert(lines.pending() =~= p.skip(i + 1));
                    i = i + 1;
                }
            },
            Some(Err(e)) => {
                proof {
                    assert(p.skip(i)[0] == p[i]);
                    lemma_first_index(p, marker_stop(marker@), i);
                    assert(lines.pending() =~= p.skip(i + 1));
                }
                return Err(e);
            },
            None => {
                proof {
                    lemma_first_index(p, marker_stop(marker@), i);
                    lemma_no_failure_before_marker(p, marker@);
                    assert(p.take(i) =~= p);
                }
                return Ok(res);
            },
        }
    }
}

/// No element before `first_index` satisfies `stop`.
pub proof fn lemma_first_index_before(items: Seq<LineItem>, stop: spec_fn(LineItem) -> bool, k: int)
    requires
        0 <= k < first_index(items, stop),
    ensures
        !stop(items[k]),
    decreases k,
{
    lemma_first_index_hit(items, stop);
    assert(items.len() > 0 && !stop(items[0]));
    if k > 0 {
        assert(items.drop_first()[k - 1] == items[k]);
        lemma_first_index_before(items.drop_first(), stop, k - 1);
    }
}

/// When a marker search stops without a failure, every failure in `items`
/// comes after some marker line.
proof fn lemma_no_failure_before_marker(items: Seq<LineItem>, marker: Seq<char>)
    requires
        ({
            let f = first_index(items, marker_stop(marker));
            f == items.len() || !is_failure(items[f])
        }),
    ensures
        !(exists|k: int|
            0 <= k < items.len() && is_failure(#[trigger] items[k]) && forall|j: int|
                0 <= j < k ==> !is_marker_line(#[trigger] items[j], marker)),
{
    let f = first_index(items, marker_stop(marker));
    lemma_first_index_hit(items, marker_stop(marker));
    assert forall|k: int| 0 <= k < items.len() && is_failure(#[trigger] items[k]) implies exists|
        j: int,
    | 0 <= j < k && is_marker_line(#[trigger] items[j], marker) by {
        if k < f {
            lemma_first_index_before(items, marker_stop(marker), k);
        } else {
            assert(is_marker_line(items[f], marker));
        }
    }
}

/// When some element satisfies `stop`, `first_index` points at one.
pub proof fn lemma_first_index_hit(items: Seq<LineItem>, stop: spec_fn(LineItem) -> bool)
    ensures
        0 <= first_index(items, stop) <= items.len(),
        first_index(items, stop) < items.len() ==> stop(items[first_index(items, stop)]),
    decreases items.len(),
{
    if items.len() > 0 && !stop(items[0]) {
        lemma_first_index_hit(items.drop_first(), stop);
    }
}

} // verus!
