//! What the overlay makes of the engines' own replies: which stamps are live, what a dropped edge
//! leaves in the log, and which engine a node or an epoch comes from.

use crate::engine::{law_engine_is_found_by_its_tag, tags_distinct, ForeignEngine, HomeEngine};
use crate::error::Error;
use crate::graph::{Node, SymbolId};
use crate::overlay::{fault, OverlayReader};
use crate::text::decimal;
use crate::xedge::{Endpoint, XEdge};
use vstd::prelude::*;

verus! {

/// The live epoch of an id is what the engine that owns it says. The home engine is asked where it
/// is the estate engine, else the foreign engine with that tag; without one no estate id is live.
/// The id of any other engine has epoch zero, and nobody is asked.
pub proof fn law_live_epoch_comes_from_the_owner<'a, H: HomeEngine, F: ForeignEngine>(
    overlay: OverlayReader<'a, H, F>,
    engine: Seq<char>,
    id: SymbolId,
    reply: Result<Option<u64>, Error>,
)
    requires
        tags_distinct(overlay.pools()),
    ensures
        engine != "estate"@ ==> (overlay.epoch_reply(engine, id, reply) <==> reply == Ok::<
            Option<u64>,
            Error,
        >(Some(0u64))),
        engine == "estate"@ && overlay.home_engine() == "estate"@ ==> (overlay.epoch_reply(
            engine,
            id,
            reply,
        ) <==> call_ensures(H::symbol_epoch, (overlay.home(), &id), reply)),
        engine == "estate"@ && overlay.home_engine() != "estate"@ ==> forall|k: int|
            0 <= k < overlay.pools().len() && (#[trigger] overlay.pools()[k]).0 == "estate"@ ==> (
            overlay.epoch_reply(engine, id, reply) <==> call_ensures(
                F::symbol_epoch_blocking,
                (&overlay.pools()[k].1, &id),
                reply,
            )),
        engine == "estate"@ && overlay.home_engine() != "estate"@ && (forall|k: int|
            0 <= k < overlay.pools().len() ==> (#[trigger] overlay.pools()[k]).0 != "estate"@)
            ==> (overlay.epoch_reply(engine, id, reply) <==> reply == Ok::<Option<u64>, Error>(
            None,
        )),
{
    law_engine_is_found_by_its_tag(overlay.pools(), engine);
}

/// A stamp of the home engine, where that is the estate engine, is live as the home engine says. It
/// may be live exactly if the engine may reply with that epoch for the id; if every reply is that
/// the id is not live, or is live with another epoch, or is a failure, it is not. It is live
/// exactly if the engine may reply with that epoch and never replies with anything else.
pub proof fn law_home_stamp_is_live_as_the_engine_says<'a, H: HomeEngine, F: ForeignEngine>(
    overlay: OverlayReader<'a, H, F>,
    end: Endpoint,
)
    requires
        end.engine@ == "estate"@,
        overlay.home_engine() == "estate"@,
    ensures
        overlay.may_be_live(end) <==> exists|id: SymbolId|
            id@ == end.stable_id@ && #[trigger] call_ensures(
                H::symbol_epoch,
                (overlay.home(), &id),
                Ok::<Option<u64>, Error>(Some(end.epoch)),
            ),
        (forall|id: SymbolId, reply: Result<Option<u64>, Error>|
            id@ == end.stable_id@ && #[trigger] call_ensures(
                H::symbol_epoch,
                (overlay.home(), &id),
                reply,
            ) ==> match reply {
                Ok(Some(epoch)) => epoch != end.epoch,
                Ok(None) => true,
                Err(_) => true,
            }) ==> !overlay.may_be_live(end),
        overlay.always_live(end) <==> {
            &&& exists|id: SymbolId|
                id@ == end.stable_id@ && #[trigger] call_ensures(
                    H::symbol_epoch,
                    (overlay.home(), &id),
                    Ok::<Option<u64>, Error>(Some(end.epoch)),
                )
            &&& forall|id: SymbolId, reply: Result<Option<u64>, Error>|
                id@ == end.stable_id@ && #[trigger] call_ensures(
                    H::symbol_epoch,
                    (overlay.home(), &id),
                    reply,
                ) ==> reply == Ok::<Option<u64>, Error>(Some(end.epoch))
        },
{
    let live = Ok::<Option<u64>, Error>(Some(end.epoch));
    assert forall|id: SymbolId, reply: Result<Option<u64>, Error>| #[trigger]
        overlay.epoch_reply(end.engine@, id, reply) == call_ensures(
            H::symbol_epoch,
            (overlay.home(), &id),
            reply,
        ) by {}
    if overlay.may_be_live(end) {
        let id = choose|id: SymbolId|
            id@ == end.stable_id@ && #[trigger] overlay.epoch_reply(end.engine@, id, live);
        assert(call_ensures(H::symbol_epoch, (overlay.home(), &id), live));
    }
    if exists|id: SymbolId|
        id@ == end.stable_id@ && #[trigger] call_ensures(
            H::symbol_epoch,
            (overlay.home(), &id),
            live,
        ) {
        let id = choose|id: SymbolId|
            id@ == end.stable_id@ && #[trigger] call_ensures(
                H::symbol_epoch,
                (overlay.home(), &id),
                live,
            );
        assert(overlay.epoch_reply(end.engine@, id, live));
    }
    if overlay.always_live(end) {
        assert forall|id: SymbolId, reply: Result<Option<u64>, Error>|
            id@ == end.stable_id@ && #[trigger] call_ensures(
                H::symbol_epoch,
                (overlay.home(), &id),
                reply,
            ) implies reply == live by {
            assert(overlay.epoch_reply(end.engine@, id, reply));
        }
    }
}

/// A stamp of a foreign estate engine is live as that engine says, in the same way. Where the
/// overlay has no engine with that tag, no estate stamp is live.
pub proof fn law_foreign_stamp_is_live_as_the_engine_says<'a, H: HomeEngine, F: ForeignEngine>(
    overlay: OverlayReader<'a, H, F>,
    end: Endpoint,
    k: int,
)
    requires
        end.engine@ == "estate"@,
        overlay.home_engine() != "estate"@,
        tags_distinct(overlay.pools()),
    ensures
        (forall|j: int|
            0 <= j < overlay.pools().len() ==> (#[trigger] overlay.pools()[j]).0 != "estate"@)
            ==> !overlay.may_be_live(end),
        0 <= k < overlay.pools().len() && overlay.pools()[k].0 == "estate"@ ==> {
            let pool = overlay.pools()[k].1;
            &&& overlay.may_be_live(end) <==> exists|id: SymbolId|
                id@ == end.stable_id@ && #[trigger] call_ensures(
                    F::symbol_epoch_blocking,
                    (&pool, &id),
                    Ok::<Option<u64>, Error>(Some(end.epoch)),
                )
            &&& (forall|id: SymbolId, reply: Result<Option<u64>, Error>|
                id@ == end.stable_id@ && #[trigger] call_ensures(
                    F::symbol_epoch_blocking,
                    (&pool, &id),
                    reply,
                ) ==> match reply {
                    Ok(Some(epoch)) => epoch != end.epoch,
                    Ok(None) => true,
                    Err(_) => true,
                }) ==> !overlay.may_be_live(end)
            &&& overlay.always_live(end) <==> {
                &&& exists|id: SymbolId|
                    id@ == end.stable_id@ && #[trigger] call_ensures(
                        F::symbol_epoch_blocking,
                        (&pool, &id),
                        Ok::<Option<u64>, Error>(Some(end.epoch)),
                    )
                &&& forall|id: SymbolId, reply: Result<Option<u64>, Error>|
                    id@ == end.stable_id@ && #[trigger] call_ensures(
                        F::symbol_epoch_blocking,
                        (&pool, &id),
                        reply,
                    ) ==> reply == Ok::<Option<u64>, Error>(Some(end.epoch))
            }
        },
{
    law_engine_is_found_by_its_tag(overlay.pools(), end.engine@);
    let live = Ok::<Option<u64>, Error>(Some(end.epoch));
    if 0 <= k < overlay.pools().len() && overlay.pools()[k].0 == "estate"@ {
        let pool = overlay.pools()[k].1;
        assert forall|id: SymbolId, reply: Result<Option<u64>, Error>| #[trigger]
            overlay.epoch_reply(end.engine@, id, reply) == call_ensures(
                F::symbol_epoch_blocking,
                (&pool, &id),
                reply,
            ) by {}
        if overlay.may_be_live(end) {
            let id = choose|id: SymbolId|
                id@ == end.stable_id@ && #[trigger] overlay.epoch_reply(end.engine@, id, live);
            assert(call_ensures(F::symbol_epoch_blocking, (&pool, &id), live));
        }
        if exists|id: SymbolId|
            id@ == end.stable_id@ && #[trigger] call_ensures(
                F::symbol_epoch_blocking,
                (&pool, &id),
                live,
            ) {
            let id = choose|id: SymbolId|
                id@ == end.stable_id@ && #[trigger] call_ensures(
                    F::symbol_epoch_blocking,
                    (&pool, &id),
                    live,
                );
            assert(overlay.epoch_reply(end.engine@, id, live));
        }
        if overlay.always_live(end) {
            assert forall|id: SymbolId, reply: Result<Option<u64>, Error>|
                id@ == end.stable_id@ && #[trigger] call_ensures(
                    F::symbol_epoch_blocking,
                    (&pool, &id),
                    reply,
                ) implies reply == live by {
                assert(overlay.epoch_reply(end.engine@, id, reply));
            }
        }
    }
}

/// A stamp outside the estate engine is live exactly if it is zero.
pub proof fn law_other_stamp_is_live_if_zero<'a, H: HomeEngine, F: ForeignEngine>(
    overlay: OverlayReader<'a, H, F>,
    end: Endpoint,
)
    requires
        end.engine@ != "estate"@,
    ensures
        overlay.may_be_live(end) <==> end.epoch == 0,
        overlay.always_live(end) <==> end.epoch == 0,
{
    let reply = Ok::<Option<u64>, Error>(Some(0u64));
    assert(overlay.epoch_reply(end.engine@, SymbolId(end.stable_id), reply));
}

/// An end is found to be at fault exactly if the reply for it is anything but its own stamp, and
/// the line says which id it is and what was replied.
pub proof fn law_fault_says_what_was_replied(end: Endpoint, reply: Result<Option<u64>, Error>)
    ensures
        fault(end, reply) is None <==> reply == Ok::<Option<u64>, Error>(Some(end.epoch)),
        reply matches Ok(Some(epoch)) ==> epoch != end.epoch ==> fault(end, reply) == Some(
            "XEDGE-STALE-EPOCH: edge to "@ + end.engine@ + ":"@ + end.stable_id@
                + " dropped (row gen="@ + decimal(end.epoch as nat) + ", live gen="@ + decimal(
                epoch as nat,
            ) + " — id reused; prune queued)"@,
        ),
        reply matches Ok(None) ==> fault(end, reply) == Some(
            "XEDGE-STALE-EPOCH: edge to "@ + end.engine@ + ":"@ + end.stable_id@
                + " dropped (no live node; prune queued)"@,
        ),
        reply is Err ==> fault(end, reply) == Some(
            "XEDGE-STALE-EPOCH: edge to "@ + end.engine@ + ":"@ + end.stable_id@
                + " dropped (epoch read failed; prune queued)"@,
        ),
{
}

impl<'a, H: HomeEngine, F: ForeignEngine> OverlayReader<'a, H, F> {
    /// Whether a log line says of an end what some reply for it was, and the reply was not the
    /// stamp.
    pub open spec fn blames(&self, end: Endpoint, line: Seq<char>) -> bool {
        exists|id: SymbolId, reply: Result<Option<u64>, Error>|
            {
                &&& id@ == end.stable_id@
                &&& #[trigger] self.epoch_reply(end.engine@, id, reply)
                &&& reply != Ok::<Option<u64>, Error>(Some(end.epoch))
                &&& fault(end, reply) == Some(line)
            }
    }
}

/// A cross-edge passes the check only if both of its stamps may be live. If it does not pass, some
/// reply for one of its ends was not the stamp, and the line is the one for that reply; the target
/// is blamed only if the source may be live.
pub proof fn law_check_goes_by_the_replies<'a, H: HomeEngine, F: ForeignEngine>(
    overlay: OverlayReader<'a, H, F>,
    row: XEdge,
    found: Option<Seq<char>>,
)
    requires
        overlay.row_checked(row, found),
    ensures
        match found {
            None => overlay.may_be_live(row.source) && overlay.may_be_live(row.target),
            Some(line) => {
                ||| overlay.blames(row.source, line)
                ||| overlay.may_be_live(row.source) && overlay.blames(row.target, line)
            },
        },
{
    assert forall|end: Endpoint| #[trigger] overlay.end_checked(end, None) implies
        overlay.may_be_live(end) by {
        let reply = choose|reply: Result<Option<u64>, Error>| #[trigger]
            overlay.epoch_reply(end.engine@, SymbolId(end.stable_id), reply) && None::<Seq<char>>
                == fault(end, reply);
        assert(reply == Ok::<Option<u64>, Error>(Some(end.epoch)));
    }
    if found is Some {
        let end = if overlay.end_checked(row.source, found) {
            row.source
        } else {
            row.target
        };
        let id = SymbolId(end.stable_id);
        let reply = choose|reply: Result<Option<u64>, Error>| #[trigger]
            overlay.epoch_reply(end.engine@, id, reply) && found == fault(end, reply);
        assert(overlay.epoch_reply(end.engine@, id, reply));
        assert(overlay.blames(end, found->Some_0));
    }
}

impl<'a, H: HomeEngine, F: ForeignEngine> OverlayReader<'a, H, F> {
    /// Whether the engines, asked in turn for a node, may reply like this: the home engine first,
    /// then, if something may cross, the foreign engines. The first that has the node, or fails,
    /// decides, and each one before it replied that it does not have it.
    pub open spec fn first_with_node(
        &self,
        id: SymbolId,
        reply: Result<Option<Node>, Error>,
    ) -> bool {
        let none = Ok::<Option<Node>, Error>(None);
        ||| {
            &&& call_ensures(H::get_node, (self.home(), &id), reply)
            &&& reply != none || self.kinds().len() == 0
        }
        ||| {
            &&& self.kinds().len() > 0
            &&& call_ensures(H::get_node, (self.home(), &id), none)
            &&& {
                ||| reply == none && forall|j: int|
                    0 <= j < self.pools().len() ==> #[trigger] self.pool_replies(j, id, none)
                ||| reply != none && exists|k: int|
                    {
                        &&& 0 <= k < self.pools().len()
                        &&& #[trigger] self.pool_replies(k, id, reply)
                        &&& forall|j: int| 0 <= j < k ==> #[trigger] self.pool_replies(j, id, none)
                    }
            }
        }
    }

    /// Whether the foreign engine at a position may reply like this when it is asked for a node.
    pub open spec fn pool_replies(
        &self,
        k: int,
        id: SymbolId,
        reply: Result<Option<Node>, Error>,
    ) -> bool {
        call_ensures(F::get_node_blocking, (&self.pools()[k].1, &id), reply)
    }

    /// Whether the engines, asked in turn for an epoch, may reply like this: the first where the
    /// symbol is live, or that fails, decides.
    pub open spec fn first_with_epoch(
        &self,
        id: SymbolId,
        reply: Result<Option<u64>, Error>,
    ) -> bool {
        let none = Ok::<Option<u64>, Error>(None);
        ||| {
            &&& call_ensures(H::symbol_epoch, (self.home(), &id), reply)
            &&& reply != none || self.kinds().len() == 0
        }
        ||| {
            &&& self.kinds().len() > 0
            &&& call_ensures(H::symbol_epoch, (self.home(), &id), none)
            &&& {
                ||| reply == none && forall|j: int|
                    0 <= j < self.pools().len() ==> #[trigger] self.pool_dates(j, id, none)
                ||| reply != none && exists|k: int|
                    {
                        &&& 0 <= k < self.pools().len()
                        &&& #[trigger] self.pool_dates(k, id, reply)
                        &&& forall|j: int| 0 <= j < k ==> #[trigger] self.pool_dates(j, id, none)
                    }
            }
        }
    }

    /// Whether the foreign engine at a position may reply like this when it is asked for an epoch.
    pub open spec fn pool_dates(
        &self,
        k: int,
        id: SymbolId,
        reply: Result<Option<u64>, Error>,
    ) -> bool {
        call_ensures(F::symbol_epoch_blocking, (&self.pools()[k].1, &id), reply)
    }
}

proof fn lemma_first_pool_with_node<'a, H: HomeEngine, F: ForeignEngine>(
    overlay: OverlayReader<'a, H, F>,
    from: int,
    id: SymbolId,
    reply: Result<Option<Node>, Error>,
)
    requires
        0 <= from <= overlay.pools().len(),
        OverlayReader::<'a, H, F>::pools_node(overlay.pools().skip(from), id, reply),
    ensures
        reply == Ok::<Option<Node>, Error>(None) ==> forall|j: int|
            from <= j < overlay.pools().len() ==> #[trigger] overlay.pool_replies(j, id, reply),
        reply != Ok::<Option<Node>, Error>(None) ==> exists|k: int|
            {
                &&& from <= k < overlay.pools().len()
                &&& #[trigger] overlay.pool_replies(k, id, reply)
                &&& forall|j: int|
                    from <= j < k ==> #[trigger] overlay.pool_replies(
                        j,
                        id,
                        Ok::<Option<Node>, Error>(None),
                    )
            },
    decreases overlay.pools().len() - from,
{
    let none = Ok::<Option<Node>, Error>(None);
    let rest = overlay.pools().skip(from);
    if from < overlay.pools().len() {
        assert(rest.skip(1) =~= overlay.pools().skip(from + 1));
        assert(rest[0] == overlay.pools()[from]);
        let one = choose|one: Result<Option<Node>, Error>| #[trigger]
            call_ensures(F::get_node_blocking, (&rest[0].1, &id), one) && match one {
                Ok(None) => OverlayReader::<'a, H, F>::pools_node(rest.skip(1), id, reply),
                _ => reply == one,
            };
        assert(overlay.pool_replies(from, id, one));
        if one == none {
            lemma_first_pool_with_node(overlay, from + 1, id, reply);
            if reply != none {
                let k = choose|k: int|
                    {
                        &&& from + 1 <= k < overlay.pools().len()
                        &&& #[trigger] overlay.pool_replies(k, id, reply)
                        &&& forall|j: int|
                            from + 1 <= j < k ==> #[trigger] overlay.pool_replies(j, id, none)
                    };
                assert(overlay.pool_replies(k, id, reply));
            }
        }
    }
}

proof fn lemma_first_pool_with_epoch<'a, H: HomeEngine, F: ForeignEngine>(
    overlay: OverlayReader<'a, H, F>,
    from: int,
    id: SymbolId,
    reply: Result<Option<u64>, Error>,
)
    requires
        0 <= from <= overlay.pools().len(),
        OverlayReader::<'a, H, F>::pools_epoch(overlay.pools().skip(from), id, reply),
    ensures
        reply == Ok::<Option<u64>, Error>(None) ==> forall|j: int|
            from <= j < overlay.pools().len() ==> #[trigger] overlay.pool_dates(j, id, reply),
        reply != Ok::<Option<u64>, Error>(None) ==> exists|k: int|
            {
                &&& from <= k < overlay.pools().len()
                &&& #[trigger] overlay.pool_dates(k, id, reply)
                &&& forall|j: int|
                    from <= j < k ==> #[trigger] overlay.pool_dates(
                        j,
                        id,
                        Ok::<Option<u64>, Error>(None),
                    )
            },
    decreases overlay.pools().len() - from,
{
    let none = Ok::<Option<u64>, Error>(None);
    let rest = overlay.pools().skip(from);
    if from < overlay.pools().len() {
        assert(rest.skip(1) =~= overlay.pools().skip(from + 1));
        assert(rest[0] == overlay.pools()[from]);
        let one = choose|one: Result<Option<u64>, Error>| #[trigger]
            call_ensures(F::symbol_epoch_blocking, (&rest[0].1, &id), one) && match one {
                Ok(None) => OverlayReader::<'a, H, F>::pools_epoch(rest.skip(1), id, reply),
                _ => reply == one,
            };
        assert(overlay.pool_dates(from, id, one));
        if one == none {
            lemma_first_pool_with_epoch(overlay, from + 1, id, reply);
            if reply != none {
                let k = choose|k: int|
                    {
                        &&& from + 1 <= k < overlay.pools().len()
                        &&& #[trigger] overlay.pool_dates(k, id, reply)
                        &&& forall|j: int|
                            from + 1 <= j < k ==> #[trigger] overlay.pool_dates(j, id, none)
                    };
                assert(overlay.pool_dates(k, id, reply));
            }
        }
    }
}

/// A node comes from the first engine that has it, or fails: the home engine, and after it, if
/// something may cross, the foreign engines in their order.
pub proof fn law_node_comes_from_the_first_that_has_it<'a, H: HomeEngine, F: ForeignEngine>(
    overlay: OverlayReader<'a, H, F>,
    id: SymbolId,
    reply: Result<Option<Node>, Error>,
)
    requires
        overlay.node_reply(id, reply),
    ensures
        overlay.first_with_node(id, reply),
{
    let none = Ok::<Option<Node>, Error>(None);
    let home = choose|home: Result<Option<Node>, Error>| #[trigger]
        call_ensures(H::get_node, (overlay.home(), &id), home) && match home {
            Ok(None) => if overlay.crosses() {
                OverlayReader::<'a, H, F>::pools_node(overlay.pools(), id, reply)
            } else {
                reply == home
            },
            _ => reply == home,
        };
    if home == none && overlay.crosses() {
        assert(overlay.pools().skip(0) =~= overlay.pools());
        lemma_first_pool_with_node(overlay, 0, id, reply);
    }
}

/// An epoch comes from the first engine where the symbol is live, or that fails, in the same order.
pub proof fn law_epoch_comes_from_the_first_that_has_it<'a, H: HomeEngine, F: ForeignEngine>(
    overlay: OverlayReader<'a, H, F>,
    id: SymbolId,
    reply: Result<Option<u64>, Error>,
)
    requires
        overlay.symbol_epoch_reply(id, reply),
    ensures
        overlay.first_with_epoch(id, reply),
{
    let none = Ok::<Option<u64>, Error>(None);
    let home = choose|home: Result<Option<u64>, Error>| #[trigger]
        call_ensures(H::symbol_epoch, (overlay.home(), &id), home) && match home {
            Ok(None) => if overlay.crosses() {
                OverlayReader::<'a, H, F>::pools_epoch(overlay.pools(), id, reply)
            } else {
                reply == home
            },
            _ => reply == home,
        };
    if home == none && overlay.crosses() {
        assert(overlay.pools().skip(0) =~= overlay.pools());
        lemma_first_pool_with_epoch(overlay, 0, id, reply);
    }
}

} // verus!
