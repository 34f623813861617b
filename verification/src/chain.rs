//! Building and walking the chain of remote messages that stores a file.
//!
//! A file's bundles are uploaded in reverse byte order, so that every
//! non-tail bundle's metadata can carry the identifier of its successor,
//! which already exists at that moment. The chain is then rebuilt from the
//! head identifier alone by fetching each bundle and following the
//! next-references forward.
//!
//! The remote store is modelled as a map from message identifier to the
//! message's metadata text and attachment payloads; [`store_has_chain`] says
//! that a store holds a file's chain, and [`lemma_chain_round_trip`] proves
//! that walking such a chain terminates after exactly one visit per bundle
//! and reproduces the original bytes.

use vstd::prelude::*;
use vstd::seq_lib::lemma_flatten_concat;
use crate::groups::{
    bundle_views_of, group_bundles, groups_of, lemma_groups_of_flatten, lemma_groups_of_nonempty,
    split_chunks, views_of,
};
use crate::meta::{
    decode_meta_spec, decode_metadata, encode_meta_spec, encode_metadata, lemma_meta_round_trip,
    MetaError, LINK_SEP,
};

verus! {

/// A remote message, as the protocol sees it: its metadata text and its
/// attachment payloads, in their recorded order.
#[verifier::ext_equal]
pub struct MsgModel {
    /// The metadata text attached to the message.
    pub meta: Seq<u8>,
    /// The attachment payloads, in attachment order.
    pub attachments: Seq<Seq<u8>>,
}

/// The message that stores bundle `k` of `bundles`: its attachments are the
/// bundle's chunks, and its metadata carries `filename` and, for every bundle
/// but the last, the identifier under which bundle `k + 1` is stored.
pub open spec fn bundle_msg(
    bundles: Seq<Seq<Seq<u8>>>,
    filename: Seq<u8>,
    ids: Seq<u64>,
    k: int,
) -> MsgModel {
    MsgModel {
        meta: encode_meta_spec(
            filename,
            if k + 1 < bundles.len() {
                Some(ids[k + 1])
            } else {
                None
            },
        ),
        attachments: bundles[k],
    }
}

/// The chain's messages in byte order, bundle `k` stored under `ids[k]`.
pub open spec fn chain_msgs(bundles: Seq<Seq<Seq<u8>>>, filename: Seq<u8>, ids: Seq<u64>) -> Seq<
    MsgModel,
> {
    Seq::new(bundles.len(), |k: int| bundle_msg(bundles, filename, ids, k))
}

/// Whether `store` holds the chain for `bundles` under the identifiers
/// `ids`, bundle `k` at `ids[k]`; `ids[0]` is then the chain's head.
pub open spec fn store_has_chain(
    store: Map<u64, MsgModel>,
    bundles: Seq<Seq<Seq<u8>>>,
    filename: Seq<u8>,
    ids: Seq<u64>,
) -> bool {
    &&& ids.len() == bundles.len()
    &&& bundles.len() > 0
    &&& forall|k: int|
        0 <= k < ids.len() ==> store.contains_key(#[trigger] ids[k]) && store[ids[k]]
            == bundle_msg(bundles, filename, ids, k)
}

/// The messages visited when walking `store` from `id` for at most `fuel`
/// hops: each visited message is fetched, its metadata decoded, and its
/// next-reference followed; the walk yields nothing if a message is missing,
/// a metadata text cannot be decoded, or the fuel runs out before a message
/// without a next-reference is reached.
pub open spec fn walk(store: Map<u64, MsgModel>, id: u64, fuel: nat) -> Option<Seq<MsgModel>>
    decreases fuel,
{
    if fuel == 0 {
        None
    } else if !store.contains_key(id) {
        None
    } else {
        let m = store[id];
        match decode_meta_spec(m.meta) {
            None => None,
            Some(p) => match p.1 {
                None => Some(seq![m]),
                Some(n) => match walk(store, n, (fuel - 1) as nat) {
                    None => None,
                    Some(rest) => Some(seq![m] + rest),
                },
            },
        }
    }
}

/// The bytes a walk writes out: every attachment of every visited message,
/// in visit order and attachment order.
pub open spec fn chain_bytes(msgs: Seq<MsgModel>) -> Seq<u8> {
    msgs.map_values(|m: MsgModel| m.attachments.flatten()).flatten()
}

/// Flattening each inner sequence first and then the outer one is the same
/// as flattening twice.
proof fn lemma_flatten_of_flattens(s: Seq<Seq<Seq<u8>>>)
    ensures
        s.map_values(|x: Seq<Seq<u8>>| x.flatten()).flatten() == s.flatten().flatten(),
    decreases s.len(),
{
    let f = |x: Seq<Seq<u8>>| x.flatten();
    if s.len() == 0 {
        assert(s.map_values(f).flatten() =~= s.flatten().flatten());
    } else {
        lemma_flatten_of_flattens(s.drop_first());
        lemma_flatten_concat(s.first(), s.drop_first().flatten());
        assert(s.map_values(f).drop_first() =~= s.drop_first().map_values(f));
        assert(s.map_values(f).first() == f(s.first()));
        assert(s.map_values(f).flatten() == f(s.first()) + s.drop_first().map_values(f).flatten());
        assert(s.flatten().flatten() =~= f(s.first()) + s.drop_first().flatten().flatten());
    }
}

/// Walking from `ids[k]` with one unit of fuel per remaining bundle visits
/// exactly the messages of bundles `k` and after, in order.
proof fn lemma_walk_suffix(
    store: Map<u64, MsgModel>,
    bundles: Seq<Seq<Seq<u8>>>,
    filename: Seq<u8>,
    ids: Seq<u64>,
    k: int,
)
    requires
        store_has_chain(store, bundles, filename, ids),
        !filename.contains(LINK_SEP),
        0 <= k < ids.len(),
    ensures
        walk(store, ids[k], (ids.len() - k) as nat) == Some(
            chain_msgs(bundles, filename, ids).skip(k),
        ),
    decreases ids.len() - k,
{
    let m = store[ids[k]];
    let next = if k + 1 < bundles.len() {
        Some(ids[k + 1])
    } else {
        None
    };
    lemma_meta_round_trip(filename, next);
    if k == ids.len() - 1 {
        assert(walk(store, ids[k], (ids.len() - k) as nat) == Some(seq![m]));
        assert(seq![m] =~= chain_msgs(bundles, filename, ids).skip(k));
    } else {
        lemma_walk_suffix(store, bundles, filename, ids, k + 1);
        assert(seq![m] + chain_msgs(bundles, filename, ids).skip(k + 1) =~= chain_msgs(
            bundles,
            filename,
            ids,
        ).skip(k));
    }
}

/// A walk that completes within its fuel is not cut short by it: any larger
/// fuel yields the same visit. With [`lemma_chain_round_trip`], walking a
/// stored chain terminates of itself after one visit per bundle, however
/// generous the bound.
pub proof fn lemma_walk_fuel(store: Map<u64, MsgModel>, id: u64, fuel: nat, more: nat)
    requires
        walk(store, id, fuel) is Some,
        fuel <= more,
    ensures
        walk(store, id, more) == walk(store, id, fuel),
    decreases fuel,
{
    if fuel > 0 && store.contains_key(id) {
        match decode_meta_spec(store[id].meta) {
            None => {},
            Some(p) => match p.1 {
                None => {},
                Some(n) => {
                    lemma_walk_fuel(store, n, (fuel - 1) as nat, (more - 1) as nat);
                },
            },
        }
    }
}

/// The laws of a stored chain. For any store that holds the chain of a
/// non-empty file split with positive chunk and bundle limits, and a
/// filename free of separator bytes: the walk from the head terminates
/// after visiting exactly one message per bundle, the visited attachments
/// concatenate to the original bytes, every visited message carries the
/// original filename, and only the last visited message lacks a
/// next-reference.
pub proof fn lemma_chain_round_trip(
    store: Map<u64, MsgModel>,
    data: Seq<u8>,
    filename: Seq<u8>,
    ids: Seq<u64>,
    maxc: nat,
    maxb: nat,
)
    requires
        maxc > 0,
        maxb > 0,
        data.len() > 0,
        !filename.contains(LINK_SEP),
        store_has_chain(store, groups_of(groups_of(data, maxc), maxb), filename, ids),
    ensures
        ({
            let bundles = groups_of(groups_of(data, maxc), maxb);
            let msgs = chain_msgs(bundles, filename, ids);
            &&& walk(store, ids[0], ids.len() as nat) == Some(msgs)
            &&& msgs.len() == ids.len()
            &&& chain_bytes(msgs) == data
            &&& forall|k: int|
                0 <= k < msgs.len() ==> {
                    let d = decode_meta_spec((#[trigger] msgs[k]).meta);
                    &&& d is Some
                    &&& d->Some_0.0 == filename
                    &&& (d->Some_0.1 is None <==> k == msgs.len() - 1)
                }
        }),
{
    let chunks = groups_of(data, maxc);
    let bundles = groups_of(chunks, maxb);
    let msgs = chain_msgs(bundles, filename, ids);
    lemma_walk_suffix(store, bundles, filename, ids, 0);
    assert(msgs.skip(0) =~= msgs);
    assert forall|k: int| 0 <= k < msgs.len() implies {
        let d = decode_meta_spec((#[trigger] msgs[k]).meta);
        &&& d is Some
        &&& d->Some_0.0 == filename
        &&& (d->Some_0.1 is None <==> k == msgs.len() - 1)
    } by {
        let next = if k + 1 < bundles.len() {
            Some(ids[k + 1])
        } else {
            None
        };
        lemma_meta_round_trip(filename, next);
    }
    assert(msgs.map_values(|m: MsgModel| m.attachments.flatten()) =~= bundles.map_values(
        |x: Seq<Seq<u8>>| x.flatten(),
    ));
    lemma_flatten_of_flattens(bundles);
    lemma_groups_of_flatten(chunks, maxb);
    lemma_groups_of_flatten(data, maxc);
}

/// A store into which the bundles were sent in reverse byte order — the
/// `j`-th send carrying the `j`-th bundle from the end, the metadata of the
/// first send naming no successor and every later send naming the identifier
/// returned for the send before it — holds the chain, with the identifier
/// returned last as its head.
pub proof fn lemma_reverse_sends_form_chain(
    store: Map<u64, MsgModel>,
    bundles: Seq<Seq<Seq<u8>>>,
    filename: Seq<u8>,
    rev_ids: Seq<u64>,
)
    requires
        bundles.len() > 0,
        rev_ids.len() == bundles.len(),
        forall|j: int|
            0 <= j < rev_ids.len() ==> store.contains_key(#[trigger] rev_ids[j]) && store[rev_ids[j]]
                == (MsgModel {
                meta: encode_meta_spec(
                    filename,
                    if j == 0 {
                        None
                    } else {
                        Some(rev_ids[j - 1])
                    },
                ),
                attachments: bundles[bundles.len() - 1 - j],
            }),
    ensures
        store_has_chain(store, bundles, filename, rev_ids.reverse()),
        rev_ids.reverse()[0] == rev_ids.last(),
{
    let ids = rev_ids.reverse();
    let n = rev_ids.len();
    assert forall|k: int| 0 <= k < ids.len() implies store.contains_key(#[trigger] ids[k])
        && store[ids[k]] == bundle_msg(bundles, filename, ids, k) by {
        let j = n - 1 - k;
        assert(ids[k] == rev_ids[j]);
        if k + 1 < n {
            assert(ids[k + 1] == rev_ids[j - 1]);
        }
        assert(bundles[bundles.len() - 1 - j] == bundles[k]);
    }
}

/// Builds the chain for one file: splits the bytes into chunks, groups them
/// into bundles, and hands the bundles out in reverse byte order, each with
/// the metadata text to attach to its message. The caller sends each bundle,
/// records the identifier the transport returned, and, once no bundles are
/// left, takes the last recorded identifier as the chain's head.
///
/// The builder keeps a ghost history of the messages it handed out and the
/// identifiers recorded for them; [`lemma_built_chain`] turns a completed
/// run against a store that kept those messages into [`store_has_chain`],
/// which [`lemma_chain_round_trip`] then walks back to the original bytes.
pub struct ChainBuilder {
    /// The bundles not yet handed out, in byte order; sends take them from
    /// the back.
    pub bundles: Vec<Vec<Vec<u8>>>,
    /// The name recorded in every message's metadata.
    pub filename: Vec<u8>,
    /// The identifier returned for the bundle sent last, if any was sent.
    pub last_id: Option<u64>,
    /// The full bundle plan, in byte order.
    pub all_bundles: Ghost<Seq<Seq<Seq<u8>>>>,
    /// The completed sends, in send order: the identifier the transport
    /// returned, and the message it was returned for.
    pub sent: Ghost<Seq<(u64, MsgModel)>>,
    /// The message handed out by the last [`Self::next_send`], until its
    /// identifier is recorded.
    pub pending: Ghost<Option<MsgModel>>,
}

impl ChainBuilder {
    /// The builder's invariant: the remaining bundles are the plan's
    /// unsent prefix, every completed send carried the right bundle and
    /// metadata, and the last recorded identifier is the latest send's.
    pub open spec fn wf(&self) -> bool {
        let n = self.all_bundles@.len() as int;
        let done = self.sent@.len() + if self.pending@ is Some {
            1int
        } else {
            0int
        };
        &&& self.bundles@.len() + done == n
        &&& bundle_views_of(self.bundles@) == self.all_bundles@.take(n - done)
        &&& forall|j: int|
            0 <= j < self.sent@.len() ==> (#[trigger] self.sent@[j]).1 == (MsgModel {
                meta: encode_meta_spec(
                    self.filename@,
                    if j == 0 {
                        None
                    } else {
                        Some(self.sent@[j - 1].0)
                    },
                ),
                attachments: self.all_bundles@[n - 1 - j],
            })
        &&& self.last_id == if self.sent@.len() > 0 {
            Some(self.sent@.last().0)
        } else {
            None::<u64>
        }
        &&& match self.pending@ {
            None => true,
            Some(m) => m == (MsgModel {
                meta: encode_meta_spec(self.filename@, self.last_id),
                attachments: self.all_bundles@[n - 1 - self.sent@.len()],
            }),
        }
    }

    /// Plans the upload of `data` under `filename`, with chunks of at most
    /// `max_chunk` bytes and bundles of at most `max_bundle` chunks.
    pub fn new(data: &Vec<u8>, filename: Vec<u8>, max_chunk: usize, max_bundle: usize) -> (b: Self)
        requires
            max_chunk > 0,
            max_bundle > 0,
        ensures
            b.wf(),
            b.all_bundles@ == groups_of(groups_of(data@, max_chunk as nat), max_bundle as nat),
            b.filename@ == filename@,
            b.last_id is None,
            b.sent@ == Seq::<(u64, MsgModel)>::empty(),
            b.pending@ is None,
    {
        let chunks = split_chunks(data, max_chunk);
        let bundles = group_bundles(chunks, max_bundle);
        let ghost all_bundles = bundle_views_of(bundles@);
        let b = ChainBuilder {
            bundles,
            filename,
            last_id: None,
            all_bundles: Ghost(all_bundles),
            sent: Ghost(Seq::empty()),
            pending: Ghost(None),
        };
        proof {
            assert(all_bundles.take(all_bundles.len() as int) =~= all_bundles);
        }
        b
    }

    /// The next message to send, if a bundle is left: the last remaining
    /// bundle's chunks as its attachments, and a metadata text naming the
    /// identifier recorded for the previously sent bundle, or no successor
    /// for the first send. The recorded identifier of the send before must
    /// have been taken in with [`Self::record_id`] first.
    pub fn next_send(&mut self) -> (r: Option<(Vec<Vec<u8>>, Vec<u8>)>)
        requires
            old(self).wf(),
            old(self).pending@ is None,
        ensures
            final(self).wf(),
            final(self).all_bundles == old(self).all_bundles,
            final(self).sent == old(self).sent,
            final(self).filename == old(self).filename,
            final(self).last_id == old(self).last_id,
            match r {
                None => {
                    &&& old(self).bundles@.len() == 0
                    &&& final(self).bundles@ == old(self).bundles@
                    &&& final(self).pending@ is None
                },
                Some(p) => {
                    &&& old(self).bundles@.len() > 0
                    &&& views_of(p.0@) == bundle_views_of(old(self).bundles@).last()
                    &&& p.1@ == encode_meta_spec(old(self).filename@, old(self).last_id)
                    &&& bundle_views_of(final(self).bundles@) == bundle_views_of(
                        old(self).bundles@,
                    ).drop_last()
                    &&& final(self).pending@ == Some(
                        MsgModel { meta: p.1@, attachments: views_of(p.0@) },
                    )
                },
            },
    {
        if self.bundles.len() == 0 {
            None
        } else {
            let bundle = self.bundles.pop().unwrap();
            let meta = encode_metadata(&self.filename, self.last_id);
            self.pending = Ghost(Some(MsgModel { meta: meta@, attachments: views_of(bundle@) }));
            proof {
                assert(views_of(bundle@) =~= bundle_views_of(old(self).bundles@).last());
                assert(bundle_views_of(self.bundles@) =~= bundle_views_of(
                    old(self).bundles@,
                ).drop_last());
                let n = self.all_bundles@.len() as int;
                let done = self.sent@.len() + 1;
                assert(bundle_views_of(self.bundles@) =~= self.all_bundles@.take(n - done));
            }
            Some((bundle, meta))
        }
    }

    /// Records the identifier the transport returned for the message handed
    /// out by the last [`Self::next_send`].
    pub fn record_id(&mut self, id: u64)
        requires
            old(self).wf(),
            old(self).pending@ is Some,
        ensures
            final(self).wf(),
            final(self).last_id == Some(id),
            final(self).bundles@ == old(self).bundles@,
            final(self).filename == old(self).filename,
            final(self).all_bundles == old(self).all_bundles,
            final(self).pending@ is None,
            final(self).sent@ == old(self).sent@.push((id, old(self).pending@->Some_0)),
    {
        self.last_id = Some(id);
        self.sent = Ghost(self.sent@.push((id, self.pending@->Some_0)));
        self.pending = Ghost(None);
    }

    /// The chain's head: the identifier recorded for the bundle sent last.
    /// Once every bundle is sent, this is the file's durable handle; it is
    /// absent exactly when nothing was recorded, as for an empty file,
    /// which yields no bundles and so no message at all.
    pub fn head(&self) -> (r: Option<u64>)
        ensures
            r == self.last_id,
    {
        self.last_id
    }
}

/// A completed builder run stores the chain. If every bundle was handed out
/// and its identifier recorded, and `store` holds, under each recorded
/// identifier, the message handed out for it, then `store` holds the chain
/// of the builder's bundle plan, headed by the identifier recorded last —
/// which is what [`ChainBuilder::head`] returns. [`lemma_chain_round_trip`]
/// then says that walking it from there reproduces the file.
pub proof fn lemma_built_chain(b: ChainBuilder, store: Map<u64, MsgModel>)
    requires
        b.wf(),
        b.pending@ is None,
        b.bundles@.len() == 0,
        b.sent@.len() > 0,
        forall|j: int|
            0 <= j < b.sent@.len() ==> store.contains_key((#[trigger] b.sent@[j]).0)
                && store[b.sent@[j].0] == b.sent@[j].1,
    ensures
        ({
            let ids = b.sent@.map_values(|p: (u64, MsgModel)| p.0).reverse();
            &&& store_has_chain(store, b.all_bundles@, b.filename@, ids)
            &&& b.last_id == Some(ids[0])
        }),
{
    let rev_ids = b.sent@.map_values(|p: (u64, MsgModel)| p.0);
    assert(b.sent@.len() == b.all_bundles@.len());
    lemma_reverse_sends_form_chain(store, b.all_bundles@, b.filename@, rev_ids);
}

/// The round trip, end to end: when a builder planned for a non-empty
/// `data` has handed out every bundle and recorded every identifier, and the
/// store kept each handed-out message under its recorded identifier, then
/// walking the store from the identifier recorded last visits one message
/// per bundle and writes out exactly `data`.
pub proof fn lemma_upload_round_trip(
    b: ChainBuilder,
    store: Map<u64, MsgModel>,
    data: Seq<u8>,
    maxc: nat,
    maxb: nat,
)
    requires
        maxc > 0,
        maxb > 0,
        data.len() > 0,
        !b.filename@.contains(LINK_SEP),
        b.all_bundles@ == groups_of(groups_of(data, maxc), maxb),
        b.wf(),
        b.pending@ is None,
        b.bundles@.len() == 0,
        forall|j: int|
            0 <= j < b.sent@.len() ==> store.contains_key((#[trigger] b.sent@[j]).0)
                && store[b.sent@[j].0] == b.sent@[j].1,
    ensures
        ({
            let ids = b.sent@.map_values(|p: (u64, MsgModel)| p.0).reverse();
            let msgs = chain_msgs(b.all_bundles@, b.filename@, ids);
            &&& b.last_id == Some(ids[0])
            &&& walk(store, ids[0], ids.len() as nat) == Some(msgs)
            &&& chain_bytes(msgs) == data
        }),
{
    lemma_groups_of_nonempty(data, maxc);
    lemma_groups_of_nonempty(groups_of(data, maxc), maxb);
    lemma_built_chain(b, store);
    let ids = b.sent@.map_values(|p: (u64, MsgModel)| p.0).reverse();
    lemma_chain_round_trip(store, data, b.filename@, ids, maxc, maxb);
}

/// Rebuilds a file from the chain's head identifier: the caller fetches the
/// pending message, delivers its metadata text here, appends the fetched
/// attachment payloads to the output in their recorded order, and repeats
/// until no message is pending.
pub struct ChainWalker {
    /// The identifier of the message to fetch next; absent once the tail
    /// bundle has been delivered.
    pub next: Option<u64>,
}

impl ChainWalker {
    /// Starts a walk at the chain's head.
    pub fn start(head: u64) -> (w: Self)
        ensures
            w.next == Some(head),
    {
        ChainWalker { next: Some(head) }
    }

    /// The identifier of the message to fetch next, if the walk is not done.
    pub fn pending(&self) -> (r: Option<u64>)
        ensures
            r == self.next,
    {
        self.next
    }

    /// Takes the metadata text of the message fetched for [`Self::pending`]:
    /// yields the filename it carries and moves the walk to the message's
    /// next-reference, or fails, leaving the walk unmoved, exactly when the
    /// text cannot be decoded.
    pub fn deliver(&mut self, meta: &Vec<u8>) -> (r: Result<Vec<u8>, MetaError>)
        requires
            old(self).next is Some,
        ensures
            match (decode_meta_spec(meta@), r) {
                (Some(p), Ok(f)) => f@ == p.0 && final(self).next == p.1,
                (None, Err(e)) => e == MetaError::BadNextId && final(self).next == old(self).next,
                _ => false,
            },
    {
        match decode_metadata(meta) {
            Ok(p) => {
                self.next = p.1;
                Ok(p.0)
            },
            Err(e) => Err(e),
        }
    }
}

} // verus!
