//! The rendering drivers: markup written into a buffer, markup written into
//! a stream, and the walk that attaches a chain to markup that is already
//! there.

use crate::matching::{RouteView, ViewModel};
use crate::nested::{built_all, NestedRouteState, NestedRouteView};
use crate::outlet::{Cursor, InnerModel, OutletInner, OutletModel};
use vstd::prelude::*;
use vstd::string::*;
use tachys::ssr::StreamBuilder;
use vstd::utf8::encode_utf8;

verus! {

/// What the views of a chain put before their outlets, outermost first.
pub open spec fn opens(c: Seq<OutletModel>) -> Seq<char>
    decreases c.len(),
{
    if c.len() == 0 {
        Seq::empty()
    } else {
        opens(c.drop_last()) + c.last().inner.template().open
    }
}

/// What the views of a chain put after their outlets, innermost first.
pub open spec fn closes(c: Seq<OutletModel>) -> Seq<char>
    decreases c.len(),
{
    if c.len() == 0 {
        Seq::empty()
    } else {
        closes(c.drop_first()) + c[0].inner.template().close
    }
}

/// The markup of a chain: every view around the markup of the level below
/// it, and nothing in the innermost outlet.
pub open spec fn markup(c: Seq<OutletModel>) -> Seq<char> {
    opens(c) + closes(c)
}

/// The sum of two lengths, or the largest length there is if the sum is
/// larger.
pub open spec fn capped(a: nat, b: nat) -> nat {
    if a + b <= usize::MAX {
        a + b
    } else {
        usize::MAX as nat
    }
}

/// Number of bytes of a view's own markup, capped. The length of each of
/// its two parts is taken as the machine gives it.
pub open spec fn view_len(v: ViewModel) -> nat {
    capped((encode_utf8(v.open).len() as usize) as nat, (encode_utf8(v.close).len() as usize) as nat)
}

/// Number of bytes that the markup of a chain is expected to take: the
/// capped sum of what its views take.
pub open spec fn html_len(c: Seq<OutletModel>) -> nat
    decreases c.len(),
{
    if c.len() == 0 {
        0
    } else {
        capped(html_len(c.drop_last()), view_len(c.last().inner.template()))
    }
}

/// Makes room in `buf` for `additional` more bytes where that can be done,
/// through `String::try_reserve`. The text in `buf` stays as it is, whether
/// room was made or not.
#[verifier::external_body]
fn reserve(buf: &mut String, additional: usize)
    ensures
        final(buf)@ == old(buf)@,
{
    let _ = buf.try_reserve(additional);
}

impl RouteView {
    /// Number of bytes of the view's own markup, capped.
    pub fn html_len(&self) -> (n: usize)
        ensures
            n == view_len(self@),
    {
        self.open().len().saturating_add(self.close().len())
    }
}

impl NestedRouteView {
    /// Number of bytes that the markup of the chain is expected to take.
    pub fn html_len(&self) -> (n: usize)
        ensures
            n == html_len(self.chain()),
    {
        let ghost c = self.chain();
        let mut total: usize = 0;
        let mut i: usize = 0;
        let n = self.len();
        proof {
            assert(c.take(0).len() == 0);
        }
        while i < n
            invariant
                i <= n,
                n == c.len(),
                c == self.chain(),
                total == html_len(c.take(i as int)),
            decreases n - i,
        {
            proof {
                assert(c.take(i + 1).drop_last() =~= c.take(i as int));
                assert(c.take(i + 1).last() == c[i as int]);
            }
            total = total.saturating_add(self.outlet(i).inner().route_view().html_len());
            i += 1;
        }
        proof {
            assert(c.take(n as int) =~= c);
        }
        total
    }

    /// Writes the markup of the chain at the end of `buf`, after room has
    /// been made for it. This consumes the views.
    pub fn to_html_with_buf(self, buf: &mut String)
        ensures
            final(buf)@ == old(buf)@ + markup(self.chain()),
    {
        let ghost c = self.chain();
        reserve(buf, self.html_len());
        let n = self.len();
        let mut i: usize = 0;
        proof {
            assert(c.take(0).len() == 0);
            assert(buf@ =~= old(buf)@ + opens(c.take(0)));
        }
        while i < n
            invariant
                i <= n,
                n == c.len(),
                c == self.chain(),
                buf@ == old(buf)@ + opens(c.take(i as int)),
            decreases n - i,
        {
            proof {
                assert(c.take(i + 1).drop_last() =~= c.take(i as int));
                assert(c.take(i + 1).last() == c[i as int]);
            }
            buf.append(self.outlet(i).inner().route_view().open());
            i += 1;
            assert(buf@ =~= old(buf)@ + opens(c.take(i as int)));
        }
        let mut j: usize = n;
        proof {
            assert(c.take(n as int) =~= c);
            assert(c.skip(n as int).len() == 0);
            assert(buf@ =~= old(buf)@ + opens(c) + closes(c.skip(n as int)));
        }
        while j > 0
            invariant
                j <= n,
                n == c.len(),
                c == self.chain(),
                buf@ == old(buf)@ + opens(c) + closes(c.skip(j as int)),
            decreases j,
        {
            j -= 1;
            proof {
                assert(c.skip(j as int).drop_first() =~= c.skip(j + 1));
                assert(c.skip(j as int)[0] == c[j as int]);
            }
            buf.append(self.outlet(j).inner().route_view().close());
            assert(buf@ =~= old(buf)@ + opens(c) + closes(c.skip(j as int)));
        }
        proof {
            assert(c.skip(0) =~= c);
            assert(buf@ =~= old(buf)@ + markup(c));
        }
    }
}


/// The cursor that a chain waits to be attached at: the one its outermost
/// view waits with, if it waits with one.
pub open spec fn hydrate_cursor(c: Seq<OutletModel>) -> Option<Cursor> {
    if c.len() == 0 {
        None
    } else {
        match c[0].inner {
            InnerModel::Pending { hydrate, .. } => hydrate,
            InnerModel::Built { .. } => None,
        }
    }
}

/// The text `whole` holds the markup of the chain from position `from` on.
pub open spec fn hydrates(whole: Seq<char>, from: int, c: Seq<OutletModel>) -> bool {
    &&& 0 <= from
    &&& from + markup(c).len() <= whole.len()
    &&& whole.subrange(from, from + markup(c).len()) == markup(c)
}

/// Why a chain could not be attached to markup.
#[derive(Clone, Copy, Debug, PartialEq, Eq, Structural)]
pub enum HydrationError {
    /// The chain does not wait with a cursor: it was not built for markup
    /// that is already there, or a driver has had it.
    NotPrepared,
    /// At the cursor the text does not hold the markup of the chain.
    Mismatch,
}

/// The opening markup of a chain is that of its first `i` levels followed
/// by that of the rest.
pub proof fn lemma_opens_split(c: Seq<OutletModel>, i: int)
    requires
        0 <= i <= c.len(),
    ensures
        opens(c) == opens(c.take(i)) + opens(c.skip(i)),
    decreases c.len(),
{
    if i == c.len() {
        assert(c.take(i) =~= c);
        assert(c.skip(i).len() == 0);
        assert(opens(c) =~= opens(c) + opens(c.skip(i)));
    } else {
        let d = c.drop_last();
        lemma_opens_split(d, i);
        assert(d.take(i) =~= c.take(i));
        assert(d.skip(i) =~= c.skip(i).drop_last());
        assert(c.skip(i).last() == c.last());
        assert(opens(c) =~= opens(c.take(i)) + opens(c.skip(i)));
    }
}

/// The closing markup of a chain is that of the levels from `j` on followed
/// by that of the levels before `j`.
pub proof fn lemma_closes_split(c: Seq<OutletModel>, j: int)
    requires
        0 <= j <= c.len(),
    ensures
        closes(c) == closes(c.skip(j)) + closes(c.take(j)),
    decreases j,
{
    if j == 0 {
        assert(c.skip(0) =~= c);
        assert(c.take(0).len() == 0);
        assert(closes(c) =~= closes(c) + closes(c.take(0)));
    } else {
        let d = c.drop_first();
        lemma_closes_split(d, j - 1);
        assert(d.skip(j - 1) =~= c.skip(j));
        assert(d.take(j - 1) =~= c.take(j).drop_first());
        assert(c.take(j)[0] == c[0]);
        assert(closes(c) =~= closes(c.skip(j)) + closes(c.take(j)));
    }
}

/// The markup of a chain around the opening markup of level `i`.
pub proof fn lemma_markup_at_open(c: Seq<OutletModel>, i: int)
    requires
        0 <= i < c.len(),
    ensures
        opens(c.take(i + 1)) == opens(c.take(i)) + c[i].inner.template().open,
        markup(c) == opens(c.take(i)) + c[i].inner.template().open + (opens(c.skip(i + 1)) + closes(c)),
{
    lemma_opens_split(c, i + 1);
    assert(c.take(i + 1).drop_last() =~= c.take(i));
    assert(c.take(i + 1).last() == c[i]);
    assert(markup(c) =~= opens(c.take(i)) + c[i].inner.template().open + (opens(c.skip(i + 1)) + closes(c)));
}

/// The markup of a chain around the closing markup of level `j`.
pub proof fn lemma_markup_at_close(c: Seq<OutletModel>, j: int)
    requires
        0 <= j < c.len(),
    ensures
        closes(c.skip(j)) == closes(c.skip(j + 1)) + c[j].inner.template().close,
        markup(c) == (opens(c) + closes(c.skip(j + 1))) + c[j].inner.template().close + closes(c.take(j)),
{
    lemma_closes_split(c, j);
    assert(c.skip(j).drop_first() =~= c.skip(j + 1));
    assert(c.skip(j)[0] == c[j]);
    assert(markup(c) =~= (opens(c) + closes(c.skip(j + 1))) + c[j].inner.template().close + closes(c.take(j)));
}

/// A text that does not hold one part of a markup where that part belongs
/// does not hold the markup.
pub proof fn lemma_part_missing(whole: Seq<char>, from: int, a: Seq<char>, e: Seq<char>, r: Seq<char>)
    requires
        0 <= from,
        !(from + a.len() + e.len() <= whole.len() && whole.subrange(
            from + a.len(),
            from + a.len() + e.len(),
        ) == e),
    ensures
        !(from + (a + e + r).len() <= whole.len() && whole.subrange(from, from + (a + e + r).len()) == a
            + e + r),
{
    let m = a + e + r;
    if from + m.len() <= whole.len() && whole.subrange(from, from + m.len()) == m {
        let found = whole.subrange(from + a.len(), from + a.len() + e.len());
        assert forall|k: int| 0 <= k < e.len() implies found[k] == e[k] by {
            assert(whole.subrange(from, from + m.len())[a.len() + k] == m[a.len() + k]);
        }
        assert(found =~= e);
    }
}

/// Whether `markup` holds `piece` at `pos`; if so, the position after it.
fn expect_at(markup: &str, total: usize, pos: usize, piece: &str) -> (next: Option<usize>)
    requires
        total == markup@.len(),
        pos <= total,
    ensures
        match next {
            Some(p) => p == pos + piece@.len() && p <= total && markup@.subrange(pos as int, p as int)
                == piece@,
            None => !(pos + piece@.len() <= total && markup@.subrange(
                pos as int,
                pos + piece@.len(),
            ) == piece@),
        },
{
    let n = piece.unicode_len();
    if n > total - pos {
        return None;
    }
    let found = markup.substring_char(pos, pos + n).to_owned();
    let wanted = piece.to_owned();
    if found == wanted {
        Some(pos + n)
    } else {
        None
    }
}

impl NestedRouteView {
    /// Attaches the chain to markup that is already there. The walk starts
    /// at the cursor that the chain waits with and goes through the text in
    /// the order in which the markup was written: the opening markup of
    /// every level from the outermost in, then the closing markup from the
    /// innermost out. It succeeds exactly if the text holds the markup of
    /// the chain there; the state is then the chain with every view
    /// attached, and the cursor returned stands after the markup.
    pub fn hydrate(self, markup: &str) -> (res: Result<(NestedRouteState, Cursor), HydrationError>)
        ensures
            match res {
                Ok((state, end)) => {
                    &&& hydrate_cursor(self.chain()) matches Some(start)
                    &&& hydrates(markup@, start.pos as int, self.chain())
                    &&& end.pos == start.pos + crate::render::markup(self.chain()).len()
                    &&& state.chain() == built_all(self.chain())
                    &&& state.is_mounted()
                },
                Err(HydrationError::NotPrepared) => hydrate_cursor(self.chain()).is_none(),
                Err(HydrationError::Mismatch) => {
                    &&& hydrate_cursor(self.chain()) matches Some(start)
                    &&& !hydrates(markup@, start.pos as int, self.chain())
                },
            },
    {
        let ghost c = self.chain();
        let n = self.len();
        if n == 0 {
            return Err(HydrationError::NotPrepared);
        }
        let start = match self.outlet(0).inner() {
            OutletInner::Pending { hydrate: Some(cursor), .. } => *cursor,
            _ => {
                return Err(HydrationError::NotPrepared);
            },
        };
        let total = markup.unicode_len();
        if start.pos > total {
            return Err(HydrationError::Mismatch);
        }
        let mut pos = start.pos;
        let mut i: usize = 0;
        proof {
            assert(c.take(0).len() == 0);
            assert(markup@.subrange(start.pos as int, pos as int) =~= opens(c.take(0)));
        }
        while i < n
            invariant
                i <= n,
                n == c.len(),
                c == self.chain(),
                total == markup@.len(),
                hydrate_cursor(c) == Some(start),
                start.pos <= pos <= total,
                pos == start.pos + opens(c.take(i as int)).len(),
                markup@.subrange(start.pos as int, pos as int) == opens(c.take(i as int)),
            decreases n - i,
        {
            let piece = self.outlet(i).inner().route_view().open();
            proof {
                lemma_markup_at_open(c, i as int);
            }
            match expect_at(markup, total, pos, piece) {
                Some(next) => {
                    proof {
                        assert(markup@.subrange(start.pos as int, next as int) =~= markup@.subrange(
                            start.pos as int,
                            pos as int,
                        ) + markup@.subrange(pos as int, next as int));
                    }
                    pos = next;
                },
                None => {
                    proof {
                        lemma_part_missing(
                            markup@,
                            start.pos as int,
                            opens(c.take(i as int)),
                            piece@,
                            opens(c.skip(i + 1)) + closes(c),
                        );
                    }
                    return Err(HydrationError::Mismatch);
                },
            }
            i += 1;
        }
        let mut j: usize = n;
        proof {
            assert(c.take(n as int) =~= c);
            assert(c.skip(n as int).len() == 0);
            assert(opens(c) + closes(c.skip(n as int)) =~= opens(c));
        }
        while j > 0
            invariant
                j <= n,
                n == c.len(),
                c == self.chain(),
                total == markup@.len(),
                hydrate_cursor(c) == Some(start),
                start.pos <= pos <= total,
                pos == start.pos + (opens(c) + closes(c.skip(j as int))).len(),
                markup@.subrange(start.pos as int, pos as int) == opens(c) + closes(c.skip(j as int)),
            decreases j,
        {
            j -= 1;
            let piece = self.outlet(j).inner().route_view().close();
            proof {
                lemma_markup_at_close(c, j as int);
            }
            match expect_at(markup, total, pos, piece) {
                Some(next) => {
                    proof {
                        assert(markup@.subrange(start.pos as int, next as int) =~= markup@.subrange(
                            start.pos as int,
                            pos as int,
                        ) + markup@.subrange(pos as int, next as int));
                        assert(opens(c) + closes(c.skip(j as int)) =~= (opens(c) + closes(c.skip(j + 1)))
                            + piece@);
                    }
                    pos = next;
                },
                None => {
                    proof {
                        lemma_part_missing(
                            markup@,
                            start.pos as int,
                            opens(c) + closes(c.skip(j + 1)),
                            piece@,
                            closes(c.take(j as int)),
                        );
                    }
                    return Err(HydrationError::Mismatch);
                },
            }
        }
        proof {
            assert(c.skip(0) =~= c);
        }
        let mut state = self.build();
        state.mount();
        Ok((state, Cursor { pos }))
    }
}


/// The stream that an asynchronous response is written to, of `tachys`.
#[verifier::external_type_specification]
#[verifier::external_body]
pub struct ExStreamBuilder(tachys::ssr::StreamBuilder);

/// The text in the synchronous buffer of a stream: what has been written
/// to it and not been made a chunk yet.
pub uninterp spec fn stream_text(stream: StreamBuilder) -> Seq<char>;

/// `StreamBuilder::push_sync` of `tachys`: puts `text` at the end of the
/// synchronous buffer of the stream.
#[verifier::external_body]
fn push_sync(stream: &mut StreamBuilder, text: &str)
    ensures
        stream_text(*final(stream)) == stream_text(*old(stream)) + text@,
{
    stream.push_sync(text);
}

/// The markup of one view that shows nothing in its outlet.
pub open spec fn view_markup(v: ViewModel) -> Seq<char> {
    v.open + v.close
}

impl RouteView {
    /// Writes the markup of the view, with nothing in its outlet, at the
    /// end of `buf`, after room has been made for it.
    pub fn to_html_with_buf(&self, buf: &mut String)
        ensures
            final(buf)@ == old(buf)@ + view_markup(self@),
    {
        reserve(buf, self.html_len());
        buf.append(self.open());
        buf.append(self.close());
        assert(buf@ =~= old(buf)@ + view_markup(self@));
    }

    /// Writes the markup of the view, with nothing in its outlet, to
    /// `stream`. The markup of a view is there at once: it goes to the
    /// synchronous buffer, in order or out of order alike.
    pub fn to_html_async_with_buf<const OUT_OF_ORDER: bool>(&self, stream: &mut StreamBuilder)
        ensures
            stream_text(*final(stream)) == stream_text(*old(stream)) + view_markup(self@),
    {
        push_sync(stream, self.open());
        push_sync(stream, self.close());
        assert(stream_text(*stream) =~= stream_text(*old(stream)) + view_markup(self@));
    }

    /// Attaches the view, with nothing in its outlet, to markup that is
    /// already there. It succeeds exactly if the text holds the markup of
    /// the view at the cursor, and returns the cursor after it.
    pub fn hydrate(&self, markup: &str, cursor: &Cursor) -> (end: Option<Cursor>)
        ensures
            end.is_some() <==> cursor.pos + view_markup(self@).len() <= markup@.len() && markup@.subrange(
                cursor.pos as int,
                cursor.pos + view_markup(self@).len(),
            ) == view_markup(self@),
            end matches Some(e) ==> e.pos == cursor.pos + view_markup(self@).len(),
    {
        let total = markup.unicode_len();
        if cursor.pos > total {
            return None;
        }
        let ghost none = Seq::<char>::empty();
        let after_open = match expect_at(markup, total, cursor.pos, self.open()) {
            Some(next) => next,
            None => {
                proof {
                    assert(none + self@.open + self@.close =~= view_markup(self@));
                    lemma_part_missing(markup@, cursor.pos as int, none, self@.open, self@.close);
                }
                return None;
            },
        };
        match expect_at(markup, total, after_open, self.close()) {
            Some(next) => {
                proof {
                    assert(markup@.subrange(cursor.pos as int, next as int) =~= markup@.subrange(
                        cursor.pos as int,
                        after_open as int,
                    ) + markup@.subrange(after_open as int, next as int));
                }
                Some(Cursor { pos: next })
            },
            None => {
                proof {
                    assert(self@.open + self@.close + none =~= view_markup(self@));
                    lemma_part_missing(markup@, cursor.pos as int, self@.open, self@.close, none);
                }
                None
            },
        }
    }
}

impl NestedRouteView {
    /// Writes the markup of the chain to `stream`, in the order of the
    /// chain. The markup of a chain is there at once: it goes to the
    /// synchronous buffer, in order or out of order alike. This consumes the
    /// views.
    pub fn to_html_async_with_buf<const OUT_OF_ORDER: bool>(self, stream: &mut StreamBuilder)
        ensures
            stream_text(*final(stream)) == stream_text(*old(stream)) + markup(self.chain()),
    {
        let ghost c = self.chain();
        let ghost before = stream_text(*stream);
        let n = self.len();
        let mut i: usize = 0;
        proof {
            assert(c.take(0).len() == 0);
            assert(before =~= before + opens(c.take(0)));
        }
        while i < n
            invariant
                i <= n,
                n == c.len(),
                c == self.chain(),
                stream_text(*stream) == before + opens(c.take(i as int)),
            decreases n - i,
        {
            proof {
                assert(c.take(i + 1).drop_last() =~= c.take(i as int));
                assert(c.take(i + 1).last() == c[i as int]);
            }
            push_sync(stream, self.outlet(i).inner().route_view().open());
            i += 1;
            assert(stream_text(*stream) =~= before + opens(c.take(i as int)));
        }
        let mut j: usize = n;
        proof {
            assert(c.take(n as int) =~= c);
            assert(c.skip(n as int).len() == 0);
            assert(stream_text(*stream) =~= before + opens(c) + closes(c.skip(n as int)));
        }
        while j > 0
            invariant
                j <= n,
                n == c.len(),
                c == self.chain(),
                stream_text(*stream) == before + opens(c) + closes(c.skip(j as int)),
            decreases j,
        {
            j -= 1;
            proof {
                assert(c.skip(j as int).drop_first() =~= c.skip(j + 1));
                assert(c.skip(j as int)[0] == c[j as int]);
            }
            push_sync(stream, self.outlet(j).inner().route_view().close());
            assert(stream_text(*stream) =~= before + opens(c) + closes(c.skip(j as int)));
        }
        proof {
            assert(c.skip(0) =~= c);
            assert(stream_text(*stream) =~= before + markup(c));
        }
    }
}

} // verus!
