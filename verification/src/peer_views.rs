//! The bitmaps of the remote peers of a file as plain values, and how the
//! owner counts of a piece follow from them.
use vstd::prelude::*;
use crate::bits::{
    count_ones, lemma_count_ones_bound, lemma_count_ones_full, lemma_count_ones_update,
};
use crate::protocol::PeerId;

verus! {

/// The pieces of a remote peer: those it is known to hold, and those it
/// holds or has been sent.
pub ghost struct PeerStateView {
    pub peer_id: PeerId,
    pub confirmed: Seq<bool>,
    pub possible: Seq<bool>,
}

/// For one piece, which of the peers are known to hold it.
pub open spec fn confirmed_column(views: Seq<PeerStateView>, piece: int) -> Seq<bool> {
    Seq::new(views.len(), |k: int| views[k].confirmed[piece])
}

/// For one piece, which of the peers hold it or have been sent it.
pub open spec fn possible_column(views: Seq<PeerStateView>, piece: int) -> Seq<bool> {
    Seq::new(views.len(), |k: int| views[k].possible[piece])
}

/// How many of the peers are known to hold the piece.
pub open spec fn num_confirmed_owners(views: Seq<PeerStateView>, piece: int) -> nat {
    count_ones(confirmed_column(views, piece))
}

/// How many of the peers hold the piece or have been sent it.
pub open spec fn num_possible_owners(views: Seq<PeerStateView>, piece: int) -> nat {
    count_ones(possible_column(views, piece))
}

/// Every bitmap has a bit for each piece; what is confirmed is possible;
/// and what is possible without being confirmed has been sent from here,
/// so it is present here.
pub open spec fn views_fit(views: Seq<PeerStateView>, local: Seq<bool>) -> bool {
    forall|k: int|
        0 <= k < views.len() ==> {
            &&& (#[trigger] views[k]).confirmed.len() == local.len()
            &&& views[k].possible.len() == local.len()
            &&& forall|piece: int|
                0 <= piece < local.len() ==> (views[k].confirmed[piece]
                    ==> #[trigger] views[k].possible[piece])
            &&& forall|piece: int|
                0 <= piece < local.len() ==> (#[trigger] views[k].possible[piece]
                    && !views[k].confirmed[piece] ==> local[piece])
        }
}

/// A piece is confirmed remotely exactly when every peer with a bitmap is
/// known to hold it.
pub open spec fn remote_is_meet(remote: Seq<bool>, views: Seq<PeerStateView>) -> bool {
    forall|piece: int|
        0 <= piece < remote.len() ==> (#[trigger] remote[piece] <==> num_confirmed_owners(
            views,
            piece,
        ) == views.len())
}

/// Whether a peer is among those with a bitmap.
pub open spec fn has_view(views: Seq<PeerStateView>, peer_id: PeerId) -> bool {
    exists|k: int| 0 <= k < views.len() && (#[trigger] views[k]).peer_id == peer_id
}

/// The value of a bit as a number.
pub open spec fn bit(value: bool) -> int {
    if value {
        1
    } else {
        0
    }
}

/// Every peer is known to hold a piece exactly when the number of
/// confirmed owners is the number of peers.
pub proof fn lemma_all_confirmed(views: Seq<PeerStateView>, piece: int)
    ensures
        num_confirmed_owners(views, piece) <= views.len(),
        num_possible_owners(views, piece) <= views.len(),
        num_confirmed_owners(views, piece) == views.len() <==> (forall|k: int|
            0 <= k < views.len() ==> (#[trigger] views[k]).confirmed[piece]),
        num_possible_owners(views, piece) == views.len() <==> (forall|k: int|
            0 <= k < views.len() ==> (#[trigger] views[k]).possible[piece]),
{
    let confirmed = confirmed_column(views, piece);
    let possible = possible_column(views, piece);
    lemma_count_ones_bound(confirmed);
    lemma_count_ones_bound(possible);
    lemma_count_ones_full(confirmed);
    lemma_count_ones_full(possible);
    if forall|k: int| 0 <= k < views.len() ==> (#[trigger] views[k]).confirmed[piece] {
        assert forall|k: int| 0 <= k < confirmed.len() implies confirmed[k] by {
            assert(views[k].confirmed[piece]);
        }
    }
    if forall|k: int| 0 <= k < confirmed.len() ==> confirmed[k] {
        assert forall|k: int| 0 <= k < views.len() implies (#[trigger] views[k]).confirmed[piece] by {
            assert(confirmed[k]);
        }
    }
    if forall|k: int| 0 <= k < views.len() ==> (#[trigger] views[k]).possible[piece] {
        assert forall|k: int| 0 <= k < possible.len() implies possible[k] by {
            assert(views[k].possible[piece]);
        }
    }
    if forall|k: int| 0 <= k < possible.len() ==> possible[k] {
        assert forall|k: int| 0 <= k < views.len() implies (#[trigger] views[k]).possible[piece] by {
            assert(possible[k]);
        }
    }
}

/// Where one sequence of bits has a one wherever another has, it has at
/// least as many ones.
pub proof fn lemma_count_ones_mono(fewer: Seq<bool>, more: Seq<bool>)
    requires
        fewer.len() == more.len(),
        forall|k: int| 0 <= k < fewer.len() ==> (fewer[k] ==> more[k]),
    ensures
        count_ones(fewer) <= count_ones(more),
    decreases fewer.len(),
{
    if fewer.len() > 0 {
        lemma_count_ones_mono(fewer.drop_last(), more.drop_last());
    }
}

/// No piece has more confirmed owners than possible owners.
pub proof fn lemma_confirmed_at_most_possible(
    views: Seq<PeerStateView>,
    local: Seq<bool>,
    piece: int,
)
    requires
        views_fit(views, local),
        0 <= piece < local.len(),
    ensures
        num_confirmed_owners(views, piece) <= num_possible_owners(views, piece),
{
    let confirmed = confirmed_column(views, piece);
    let possible = possible_column(views, piece);
    assert forall|k: int| 0 <= k < confirmed.len() implies (confirmed[k] ==> possible[k]) by {
        if views[k].confirmed[piece] {
            assert(views[k].possible[piece]);
        }
    }
    lemma_count_ones_mono(confirmed, possible);
}

/// When one peer's bits for one piece change, the owner counts of that
/// piece follow, and those of every other piece stay.
pub proof fn lemma_counts_after_bit_change(
    views: Seq<PeerStateView>,
    after: Seq<PeerStateView>,
    k: int,
    piece: int,
)
    requires
        0 <= k < views.len(),
        after.len() == views.len(),
        forall|j: int| 0 <= j < views.len() && j != k ==> after[j] == views[j],
        after[k].confirmed.len() == views[k].confirmed.len(),
        after[k].possible.len() == views[k].possible.len(),
        forall|other: int|
            0 <= other < views[k].confirmed.len() && other != piece ==> after[k].confirmed[other]
                == views[k].confirmed[other],
        forall|other: int|
            0 <= other < views[k].possible.len() && other != piece ==> after[k].possible[other]
                == views[k].possible[other],
    ensures
        num_confirmed_owners(after, piece) == num_confirmed_owners(views, piece) + bit(
            after[k].confirmed[piece],
        ) - bit(views[k].confirmed[piece]),
        num_possible_owners(after, piece) == num_possible_owners(views, piece) + bit(
            after[k].possible[piece],
        ) - bit(views[k].possible[piece]),
        forall|other: int|
            0 <= other < views[k].confirmed.len() && other != piece
                ==> #[trigger] confirmed_column(after, other) == confirmed_column(views, other),
        forall|other: int|
            0 <= other < views[k].possible.len() && other != piece ==> #[trigger] possible_column(
                after,
                other,
            ) == possible_column(views, other),
{
    let confirmed = confirmed_column(views, piece);
    let possible = possible_column(views, piece);
    assert(confirmed_column(after, piece) =~= confirmed.update(k, after[k].confirmed[piece]));
    assert(possible_column(after, piece) =~= possible.update(k, after[k].possible[piece]));
    lemma_count_ones_update(confirmed, k, after[k].confirmed[piece]);
    lemma_count_ones_update(possible, k, after[k].possible[piece]);
    assert forall|other: int|
        0 <= other < views[k].confirmed.len() && other != piece implies #[trigger] confirmed_column(
        after,
        other,
    ) == confirmed_column(views, other) by {
        assert(confirmed_column(after, other) =~= confirmed_column(views, other));
    }
    assert forall|other: int|
        0 <= other < views[k].possible.len() && other != piece implies #[trigger] possible_column(
        after,
        other,
    ) == possible_column(views, other) by {
        assert(possible_column(after, other) =~= possible_column(views, other));
    }
}

/// A peer that joins adds its own bit to the owner counts of a piece.
pub proof fn lemma_counts_after_push(views: Seq<PeerStateView>, joined: PeerStateView, piece: int)
    ensures
        num_confirmed_owners(views.push(joined), piece) == num_confirmed_owners(views, piece)
            + bit(joined.confirmed[piece]),
        num_possible_owners(views.push(joined), piece) == num_possible_owners(views, piece) + bit(
            joined.possible[piece],
        ),
{
    let after = views.push(joined);
    assert(confirmed_column(after, piece).drop_last() =~= confirmed_column(views, piece));
    assert(possible_column(after, piece).drop_last() =~= possible_column(views, piece));
}

/// A peer that leaves, with the last peer taking its place, takes its own
/// bit from the owner counts of a piece.
pub proof fn lemma_counts_after_swap_remove(views: Seq<PeerStateView>, k: int, piece: int)
    requires
        0 <= k < views.len(),
    ensures
        num_confirmed_owners(views.update(k, views.last()).drop_last(), piece)
            == num_confirmed_owners(views, piece) - bit(views[k].confirmed[piece]),
        num_possible_owners(views.update(k, views.last()).drop_last(), piece)
            == num_possible_owners(views, piece) - bit(views[k].possible[piece]),
{
    let after = views.update(k, views.last()).drop_last();
    let confirmed = confirmed_column(views, piece);
    let possible = possible_column(views, piece);
    lemma_count_ones_update(confirmed, k, confirmed.last());
    lemma_count_ones_update(possible, k, possible.last());
    assert(confirmed_column(after, piece) =~= confirmed.update(k, confirmed.last()).drop_last());
    assert(possible_column(after, piece) =~= possible.update(k, possible.last()).drop_last());
    assert(confirmed.update(k, confirmed.last()).last() == confirmed.last());
    assert(possible.update(k, possible.last()).last() == possible.last());
}

/// The numbers of the peers with a bitmap, in stride order.
pub open spec fn view_ids(views: Seq<PeerStateView>) -> Seq<u32> {
    Seq::new(views.len(), |k: int| views[k].peer_id.0)
}

} // verus!
