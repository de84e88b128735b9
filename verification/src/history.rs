//! What a canister was given in the course of an installation, and what it holds at the end.
//! What it holds is stated of the model of a canister in [`crate::store`].

use crate::assets::{
    batch_operations, details_by_key, uploaded_asset, AssetView, EncodingView, IDENTITY,
};
use crate::chunks::{chunk, chunk_count, chunks, lemma_chunks_make_up_content};
use crate::digest::sha256_digest;
use crate::install::{on_to_next_chunk, on_to_next_file, InstallView, ProgressView, UploadView};
use crate::keyed_list::{as_map, has_key, lemma_as_map, lemma_last_counts};
use crate::locations::LocationView;
use crate::media_type::guessed_media_type;
use crate::protocol::DetailsView;
use crate::runs::{after, lemma_ok_only_by_commit, next, Event};
use crate::store::{
    applied_all, lemma_batch, listed_keys, stored, stored_assets,
    stored_encoding, StoredAsset, StoredEncoding,
};
use candid::Nat;
use vstd::prelude::*;

verus! {

/// What happened in an installation so far.
pub struct History {
    /// The assets that the canister listed.
    pub details: Seq<DetailsView>,
    /// The batch that it opened.
    pub batch_id: Option<Nat>,
    /// The content of the files that were read, in order.
    pub read: Seq<Seq<u8>>,
    /// The chunks that were delivered, in order, each with the name that it got.
    pub delivered: Seq<(Nat, Seq<u8>)>,
}

/// What happens when `event` comes in `state`.
pub open spec fn extended<E>(
    history: History,
    state: InstallView<E>,
    event: Event<E>,
) -> History {
    match (state, event) {
        (InstallView::List { locations }, Event::Listed(Ok(details))) => History {
            details,
            ..history
        },
        (
            InstallView::CreateBatch { locations, current },
            Event::BatchCreated(Ok(batch_id)),
        ) => History { batch_id: Some(batch_id), ..history },
        (InstallView::ReadSource { progress }, Event::SourceRead(Ok(content))) => History {
            read: history.read.push(content),
            ..history
        },
        (
            InstallView::CallCreateChunk { upload },
            Event::ChunkCreated(Ok(chunk_id)),
        ) => History {
            delivered: history.delivered.push((chunk_id, upload.next_chunk())),
            ..history
        },
        _ => history,
    }
}

/// What happened in an installation of the files at `locations` in which `events` came, in order.
pub open spec fn history<E>(locations: Seq<LocationView>, events: Seq<Event<E>>) -> History
    decreases events.len(),
{
    if events.len() == 0 {
        History {
            details: Seq::empty(),
            batch_id: None,
            read: Seq::empty(),
            delivered: Seq::empty(),
        }
    } else {
        extended(
            history(locations, events.drop_last()),
            after(InstallView::<E>::List { locations }, events.drop_last()),
            events.last(),
        )
    }
}

/// A call of a canister.
pub enum Call {
    List,
    CreateBatch,
    CreateChunk { batch_id: Nat, content: Seq<u8> },
    Commit { batch_id: Nat },
}

/// The call that `event` answers in `state`, if it answers one.
pub open spec fn answered_call<E>(state: InstallView<E>, event: Event<E>) -> Option<Call> {
    match (state, event) {
        (InstallView::List { locations }, Event::Listed(reply)) => Some(Call::List),
        (
            InstallView::CreateBatch { locations, current },
            Event::BatchCreated(reply),
        ) => Some(Call::CreateBatch),
        (InstallView::CallCreateChunk { upload }, Event::ChunkCreated(reply)) => Some(
            Call::CreateChunk { batch_id: upload.progress.batch_id, content: upload.next_chunk() },
        ),
        (InstallView::Commit { batch_id, operations }, Event::Committed(reply)) => Some(
            Call::Commit { batch_id },
        ),
        _ => None,
    }
}

/// The calls of the canister, in order, in an installation of the files at `locations` in which
/// `events` came, whether or not they succeeded.
pub open spec fn calls<E>(locations: Seq<LocationView>, events: Seq<Event<E>>) -> Seq<Call>
    decreases events.len(),
{
    if events.len() == 0 {
        Seq::empty()
    } else {
        let before = calls(locations, events.drop_last());
        let state = after(InstallView::<E>::List { locations }, events.drop_last());
        match answered_call(state, events.last()) {
            Some(call) => before.push(call),
            None => before,
        }
    }
}

/// The canister is first asked for its assets, then for a batch, then given chunks, and last told to
/// commit; chunks and commit are for the batch that it opened.
pub open spec fn in_order(calls: Seq<Call>, batch_id: Option<Nat>) -> bool {
    forall|i: int|
        0 <= i < calls.len() ==> match #[trigger] calls[i] {
            Call::List => i == 0,
            Call::CreateBatch => i == 1,
            Call::CreateChunk { batch_id: batch, content } => i >= 2 && batch_id == Some(batch),
            Call::Commit { batch_id: batch } => i >= 2 && i == calls.len() - 1 && batch_id == Some(
                batch,
            ),
        }
}

/// The batch that the state of an installation is about, if it is about one.
pub open spec fn batch_of<E>(state: InstallView<E>) -> Option<Nat> {
    match state {
        InstallView::ReadSource { progress } => Some(progress.batch_id),
        InstallView::EncodeChunk { upload } => Some(upload.progress.batch_id),
        InstallView::CallCreateChunk { upload } => Some(upload.progress.batch_id),
        InstallView::Wait { upload, error } => Some(upload.progress.batch_id),
        InstallView::Commit { batch_id, operations } => Some(batch_id),
        _ => None,
    }
}

/// How far the calls have come.
spec fn calls_hold<E>(state: InstallView<E>, calls: Seq<Call>, batch_id: Option<Nat>) -> bool {
    &&& in_order(calls, batch_id)
    &&& match state {
        InstallView::List { locations } => calls.len() == 0 && batch_id is None,
        InstallView::CreateBatch { locations, current } => calls.len() == 1 && batch_id is None,
        InstallView::Finished { result } => true,
        _ => calls.len() >= 2 && !(calls.last() is Commit) && batch_of(state) == batch_id,
    }
}

/// The calls of an installation come in order, whatever happens: first the canister is asked for its
/// assets, then for a batch; then every chunk is sent under the batch that was opened, and last that
/// batch is committed, at most once. Every state after the batch was opened is about that batch.
pub proof fn lemma_calls_in_order<E>(locations: Seq<LocationView>, events: Seq<Event<E>>)
    ensures
        in_order(calls(locations, events), history(locations, events).batch_id),
        batch_of(after(InstallView::<E>::List { locations }, events)) is Some ==> batch_of(
            after(InstallView::<E>::List { locations }, events),
        ) == history(locations, events).batch_id,
{
    lemma_calls_hold(locations, events);
}

proof fn lemma_calls_hold<E>(locations: Seq<LocationView>, events: Seq<Event<E>>)
    ensures
        calls_hold(
            after(InstallView::<E>::List { locations }, events),
            calls(locations, events),
            history(locations, events).batch_id,
        ),
    decreases events.len(),
{
    if events.len() > 0 {
        let front = events.drop_last();
        let state = after(InstallView::<E>::List { locations }, front);
        let made = calls(locations, front);
        let now = calls(locations, events);
        lemma_calls_hold(locations, front);
        assert forall|i: int| 0 <= i < made.len() implies #[trigger] now[i] == made[i] by {}
    }
}

/// No name was given to two chunks.
pub open spec fn distinct_names(delivered: Seq<(Nat, Seq<u8>)>) -> bool {
    forall|i: int, j: int|
        0 <= i < j < delivered.len() ==> (#[trigger] delivered[i]).0 != (#[trigger] delivered[j]).0
}

/// The chunks that a canister holds, by name, once `delivered` were delivered.
pub open spec fn chunk_store(delivered: Seq<(Nat, Seq<u8>)>) -> Map<Nat, Seq<u8>>
    decreases delivered.len(),
{
    if delivered.len() == 0 {
        Map::empty()
    } else {
        chunk_store(delivered.drop_last()).insert(delivered.last().0, delivered.last().1)
    }
}

/// The content that the chunks named `chunk_ids` make up.
pub open spec fn assembled(chunk_ids: Seq<Nat>, held: Map<Nat, Seq<u8>>) -> Seq<u8> {
    chunk_ids.map_values(|chunk_id: Nat| held[chunk_id]).flatten()
}

/// From position `at` on, the first chunks of `content` were delivered, in order, and got the names
/// `chunk_ids`.
pub open spec fn delivered_at(
    chunk_ids: Seq<Nat>,
    content: Seq<u8>,
    delivered: Seq<(Nat, Seq<u8>)>,
    at: int,
) -> bool {
    &&& 0 <= at
    &&& at + chunk_ids.len() <= delivered.len()
    &&& forall|j: int|
        0 <= j < chunk_ids.len() ==> delivered[at + j] == (
            #[trigger] chunk_ids[j],
            chunk(content, j),
        )
}

/// All the chunks of `content` were delivered, in order, and got the names `chunk_ids`.
pub open spec fn delivered_whole(
    chunk_ids: Seq<Nat>,
    content: Seq<u8>,
    delivered: Seq<(Nat, Seq<u8>)>,
) -> bool {
    &&& chunk_ids.len() == chunk_count(content.len())
    &&& exists|at: int| delivered_at(chunk_ids, content, delivered, at)
}

/// The names of the chunks that make up an uploaded asset.
pub open spec fn names(asset: AssetView) -> Seq<Nat> {
    asset.encodings[0].1.chunk_ids
}

/// The asset is the file at `location`, of which `content` was read: it has the type that was
/// guessed, and as its one encoding, with the digest of the content, the chunks in which the content
/// was delivered.
pub open spec fn made_of(
    asset: AssetView,
    location: LocationView,
    content: Seq<u8>,
    delivered: Seq<(Nat, Seq<u8>)>,
) -> bool {
    &&& guessed_media_type(location.source) is Some
    &&& asset == uploaded_asset(
        location,
        guessed_media_type(location.source)->0,
        content,
        names(asset),
    )
    &&& delivered_whole(names(asset), content, delivered)
}

proof fn lemma_chunk_store(delivered: Seq<(Nat, Seq<u8>)>, i: int)
    requires
        distinct_names(delivered),
        0 <= i < delivered.len(),
    ensures
        chunk_store(delivered)[delivered[i].0] == delivered[i].1,
    decreases delivered.len(),
{
    if i < delivered.len() - 1 {
        let front = delivered.drop_last();
        assert forall|j: int, k: int| 0 <= j < k < front.len() implies (#[trigger] front[j]).0 != (
        #[trigger] front[k]).0 by {
            assert(delivered[j].0 != delivered[k].0);
        }
        lemma_chunk_store(front, i);
        assert(delivered[i].0 != delivered[delivered.len() - 1].0);
    }
}

/// Content that was delivered whole can be put together again from the names of its chunks, if the
/// canister gave no two chunks the same name.
pub proof fn lemma_assembled(
    chunk_ids: Seq<Nat>,
    content: Seq<u8>,
    delivered: Seq<(Nat, Seq<u8>)>,
)
    requires
        delivered_whole(chunk_ids, content, delivered),
        distinct_names(delivered),
    ensures
        assembled(chunk_ids, chunk_store(delivered)) == content,
{
    let held = chunk_store(delivered);
    let at = choose|at: int| delivered_at(chunk_ids, content, delivered, at);
    assert forall|j: int| 0 <= j < chunk_ids.len() implies held[#[trigger] chunk_ids[j]] == chunk(
        content,
        j,
    ) by {
        lemma_chunk_store(delivered, at + j);
    }
    assert(chunk_ids.map_values(|chunk_id: Nat| held[chunk_id]) =~= chunks(content));
    lemma_chunks_make_up_content(content);
}

/// The assets are the first files of an installation.
pub open spec fn all_made_of(
    assets: Seq<AssetView>,
    locations: Seq<LocationView>,
    history: History,
) -> bool {
    &&& assets.len() <= locations.len()
    &&& assets.len() <= history.read.len()
    &&& forall|i: int|
        0 <= i < assets.len() ==> made_of(
            #[trigger] assets[i],
            locations[i],
            history.read[i],
            history.delivered,
        )
}

spec fn progress_holds(
    progress: ProgressView,
    locations: Seq<LocationView>,
    history: History,
) -> bool {
    &&& progress.locations == locations
    &&& progress.current == details_by_key(history.details)
    &&& history.batch_id == Some(progress.batch_id)
    &&& all_made_of(progress.chunked, locations, history)
}

spec fn upload_holds(
    upload: UploadView,
    locations: Seq<LocationView>,
    history: History,
) -> bool {
    &&& progress_holds(upload.progress, locations, history)
    &&& upload.well_formed()
    &&& guessed_media_type(upload.progress.next_location().source) == Some(upload.media_type)
    &&& history.read == history.read.drop_last().push(upload.content)
    &&& history.read.len() == upload.progress.chunked.len() + 1
    &&& delivered_at(
        upload.chunk_ids,
        upload.content,
        history.delivered,
        history.delivered.len() - upload.chunk_ids.len(),
    )
}

/// The batch that is to be committed puts all the files in place of the assets that were listed.
pub open spec fn commit_holds<E>(
    state: InstallView<E>,
    locations: Seq<LocationView>,
    history: History,
    assets: Seq<AssetView>,
) -> bool {
    &&& assets.len() == locations.len()
    &&& history.read.len() == locations.len()
    &&& all_made_of(assets, locations, history)
    &&& state matches InstallView::Commit { batch_id, operations } && history.batch_id == Some(
        batch_id,
    ) && operations == batch_operations(details_by_key(history.details), assets)
}

spec fn state_holds<E>(
    state: InstallView<E>,
    locations: Seq<LocationView>,
    history: History,
) -> bool {
    match state {
        InstallView::List { locations: files } => files == locations && history.read.len() == 0,
        InstallView::CreateBatch { locations: files, current } => files == locations && current
            == details_by_key(history.details) && history.read.len() == 0,
        InstallView::ReadSource { progress } => progress.has_next() && progress_holds(
            progress,
            locations,
            history,
        ) && history.read.len() == progress.chunked.len(),
        InstallView::EncodeChunk { upload } => upload_holds(upload, locations, history),
        InstallView::CallCreateChunk { upload } => upload_holds(upload, locations, history),
        InstallView::Wait { upload, error } => upload_holds(upload, locations, history),
        InstallView::Commit { batch_id, operations } => exists|assets: Seq<AssetView>|
            commit_holds(state, locations, history, assets),
        InstallView::Finished { result } => true,
    }
}

proof fn lemma_made_of_kept(
    asset: AssetView,
    location: LocationView,
    content: Seq<u8>,
    delivered: Seq<(Nat, Seq<u8>)>,
    further: (Nat, Seq<u8>),
)
    requires
        made_of(asset, location, content, delivered),
    ensures
        made_of(asset, location, content, delivered.push(further)),
{
    let at = choose|at: int| delivered_at(names(asset), content, delivered, at);
    assert(delivered_at(names(asset), content, delivered.push(further), at));
}

proof fn lemma_next_file<E>(
    progress: ProgressView,
    locations: Seq<LocationView>,
    history: History,
)
    requires
        progress_holds(progress, locations, history),
        history.read.len() == progress.chunked.len(),
    ensures
        state_holds(on_to_next_file::<E>(progress), locations, history),
{
    if !progress.has_next() {
        assert(commit_holds(
            on_to_next_file::<E>(progress),
            locations,
            history,
            progress.chunked,
        ));
    }
}

proof fn lemma_delivered<E>(
    upload: UploadView,
    chunk_id: Nat,
    locations: Seq<LocationView>,
    before: History,
)
    requires
        upload_holds(upload, locations, before),
    ensures
        state_holds(
            on_to_next_chunk::<E>(
                UploadView { chunk_ids: upload.chunk_ids.push(chunk_id), ..upload },
            ),
            locations,
            History { delivered: before.delivered.push((chunk_id, upload.next_chunk())), ..before },
        ),
{
    let now = History {
        delivered: before.delivered.push((chunk_id, upload.next_chunk())),
        ..before
    };
    let further = UploadView { chunk_ids: upload.chunk_ids.push(chunk_id), ..upload };
    let chunked = upload.progress.chunked;
    let at = before.delivered.len() - upload.chunk_ids.len();
    assert forall|i: int| 0 <= i < chunked.len() implies made_of(
        #[trigger] chunked[i],
        locations[i],
        now.read[i],
        now.delivered,
    ) by {
        lemma_made_of_kept(
            chunked[i],
            locations[i],
            before.read[i],
            before.delivered,
            (chunk_id, upload.next_chunk()),
        );
    }
    assert forall|j: int| 0 <= j < further.chunk_ids.len() implies now.delivered[at + j] == (
        #[trigger] further.chunk_ids[j],
        chunk(further.content, j),
    ) by {
        if j < upload.chunk_ids.len() {
            assert(further.chunk_ids[j] == upload.chunk_ids[j]);
        }
    }
    assert(delivered_at(further.chunk_ids, further.content, now.delivered, at));
    if further.chunk_ids.len() == chunk_count(further.content.len()) {
        let progress = ProgressView {
            chunked: chunked.push(further.asset()),
            ..upload.progress
        };
        assert(now.read[chunked.len() as int] == upload.content);
        assert(made_of(
            further.asset(),
            upload.progress.next_location(),
            further.content,
            now.delivered,
        ));
        assert forall|i: int| 0 <= i < progress.chunked.len() implies made_of(
            #[trigger] progress.chunked[i],
            locations[i],
            now.read[i],
            now.delivered,
        ) by {
            if i < chunked.len() {
                assert(progress.chunked[i] == chunked[i]);
            }
        }
        lemma_next_file::<E>(progress, locations, now);
    }
}

proof fn lemma_state_holds<E>(locations: Seq<LocationView>, events: Seq<Event<E>>)
    ensures
        state_holds(
            after(InstallView::<E>::List { locations }, events),
            locations,
            history(locations, events),
        ),
    decreases events.len(),
{
    if events.len() > 0 {
        let front = events.drop_last();
        let event = events.last();
        let before = history(locations, front);
        let now = history(locations, events);
        let state = after(InstallView::<E>::List { locations }, front);
        lemma_state_holds(locations, front);
        match (state, event) {
            (
                InstallView::CreateBatch { locations: files, current },
                Event::BatchCreated(Ok(batch_id)),
            ) => {
                let progress = ProgressView {
                    locations: files,
                    current,
                    batch_id,
                    chunked: Seq::empty(),
                };
                lemma_next_file::<E>(progress, locations, now);
            },
            (InstallView::ReadSource { progress }, Event::SourceRead(Ok(content))) => {
                assert(now.read.drop_last() =~= before.read);
                assert forall|i: int| 0 <= i < progress.chunked.len() implies made_of(
                    #[trigger] progress.chunked[i],
                    locations[i],
                    now.read[i],
                    now.delivered,
                ) by {
                    assert(now.read[i] == before.read[i]);
                }
            },
            (InstallView::CallCreateChunk { upload }, Event::ChunkCreated(Ok(chunk_id))) => {
                lemma_delivered::<E>(upload, chunk_id, locations, before);
            },
            (InstallView::Commit { batch_id, operations }, _) => {
                if !(event is Committed) {
                    let assets = choose|assets: Seq<AssetView>|
                        commit_holds(state, locations, before, assets);
                    assert(commit_holds(next(state, event), locations, now, assets));
                }
            },
            _ => {},
        }
    }
}

/// Nothing is committed before every file has been read and delivered whole. Whatever happens in an
/// installation, if it comes to commit, it commits the batch that was opened for it, to put all the
/// files in place of the assets that the canister listed: each file under its key, with the type
/// guessed from its path, with its digest, and made of the chunks in which what was read of it was
/// delivered, by the names that they got, in order.
pub proof fn lemma_commit_is_complete<E>(
    locations: Seq<LocationView>,
    events: Seq<Event<E>>,
) -> (assets: Seq<AssetView>)
    requires
        after(InstallView::<E>::List { locations }, events) is Commit,
    ensures
        commit_holds(
            after(InstallView::<E>::List { locations }, events),
            locations,
            history(locations, events),
            assets,
        ),
{
    lemma_state_holds(locations, events);
    choose|assets: Seq<AssetView>|
        commit_holds(
            after(InstallView::<E>::List { locations }, events),
            locations,
            history(locations, events),
            assets,
        )
}

/// No later file than the `i`-th has the same key.
pub open spec fn last_of_its_key(locations: Seq<LocationView>, i: int) -> bool {
    forall|j: int| i < j < locations.len() ==> (#[trigger] locations[j]).key != locations[i].key
}

/// The stored asset is the file at `location`, of which `content` was read: it has the type that was
/// guessed, and as its one encoding, with the digest of the content, the chunks in which the content
/// was delivered.
pub open spec fn holds_file(
    asset: StoredAsset,
    location: LocationView,
    content: Seq<u8>,
    delivered: Seq<(Nat, Seq<u8>)>,
) -> bool {
    &&& guessed_media_type(location.source) == Some(asset.content_type)
    &&& asset.encodings.dom() == set![IDENTITY@]
    &&& asset.encodings[IDENTITY@].sha256 == Some(sha256_digest(content))
    &&& delivered_whole(asset.encodings[IDENTITY@].chunk_ids, content, delivered)
}

proof fn lemma_stored_file(
    asset: AssetView,
    location: LocationView,
    content: Seq<u8>,
    delivered: Seq<(Nat, Seq<u8>)>,
)
    requires
        made_of(asset, location, content, delivered),
    ensures
        holds_file(stored(asset), location, content, delivered),
{
    let pairs = asset.encodings.map_values(
        |item: (Seq<char>, EncodingView)| (item.0, stored_encoding(item.1)),
    );
    assert(pairs.drop_last() =~= Seq::empty());
    assert(as_map(pairs.drop_last()) =~= Map::<Seq<char>, StoredEncoding>::empty());
    assert(as_map(pairs).dom() =~= set![IDENTITY@]);
}

/// Some file has the key.
pub open spec fn is_key_of_file(locations: Seq<LocationView>, key: Seq<char>) -> bool {
    exists|i: int| 0 <= i < locations.len() && (#[trigger] locations[i]).key == key
}

/// What an installation is for: whatever the canister holds when the batch is committed, it refuses
/// nothing, and then holds the files: under the key of each file an asset that is the file, as it
/// was read. Of two files with one key it is the later. Of what it held before it holds, unchanged,
/// only what it did not list, so nothing if it held no more than it listed. If it gave no two chunks
/// the same name, what it holds under the key of a file is the content of the file. The canister is
/// taken to act as `applied` does.
pub proof fn lemma_canister_holds_files<E>(
    locations: Seq<LocationView>,
    events: Seq<Event<E>>,
    store: Map<Seq<char>, StoredAsset>,
)
    requires
        after(InstallView::<E>::List { locations }, events) is Commit,
    ensures
        ({
            let past = history(locations, events);
            let operations = after(InstallView::<E>::List { locations }, events)->operations;
            &&& past.read.len() == locations.len()
            &&& applied_all(store, operations) matches Some(held) && {
                &&& forall|key: Seq<char>| #[trigger]
                    held.contains_key(key) <==> is_key_of_file(locations, key) || (
                    store.contains_key(key) && !listed_keys(past.details).contains(key))
                &&& forall|key: Seq<char>| #[trigger]
                    held.contains_key(key) && !is_key_of_file(locations, key) ==> held[key]
                        == store[key]
                &&& forall|i: int|
                    0 <= i < locations.len() && last_of_its_key(locations, i) ==> holds_file(
                        held[(#[trigger] locations[i]).key],
                        locations[i],
                        past.read[i],
                        past.delivered,
                    )
                &&& distinct_names(past.delivered) ==> forall|i: int|
                    0 <= i < locations.len() && last_of_its_key(locations, i) ==> assembled(
                        held[(#[trigger] locations[i]).key].encodings[IDENTITY@].chunk_ids,
                        chunk_store(past.delivered),
                    ) == past.read[i]
            }
        }),
{
    let past = history(locations, events);
    let assets = lemma_commit_is_complete(locations, events);
    lemma_batch(store, past.details, assets);
    let uploaded = stored_assets(assets);
    let held = store.remove_keys(listed_keys(past.details)).union_prefer_right(uploaded);
    let pairs = assets.map_values(|asset: AssetView| (asset.location.key, stored(asset)));
    assert forall|i: int| 0 <= i < assets.len() implies (#[trigger] pairs[i]).0
        == locations[i].key by {
        assert(made_of(assets[i], locations[i], past.read[i], past.delivered));
    }
    lemma_as_map(pairs);
    assert forall|key: Seq<char>| #[trigger] uploaded.contains_key(key) <==> is_key_of_file(
        locations,
        key,
    ) by {
        assert(as_map(pairs).contains_key(key) <==> has_key(pairs, key));
        if has_key(pairs, key) {
            let i = choose|i: int| 0 <= i < pairs.len() && (#[trigger] pairs[i]).0 == key;
            assert(locations[i].key == key);
        }
        if is_key_of_file(locations, key) {
            let i = choose|i: int| 0 <= i < locations.len() && (#[trigger] locations[i]).key == key;
            assert(pairs[i].0 == key);
        }
    }
    assert forall|key: Seq<char>| #[trigger] held.contains_key(key) <==> is_key_of_file(
        locations,
        key,
    ) || (store.contains_key(key) && !listed_keys(past.details).contains(key)) by {
        assert(uploaded.contains_key(key) <==> is_key_of_file(locations, key));
    }
    assert forall|key: Seq<char>| #[trigger]
        held.contains_key(key) && !is_key_of_file(locations, key) implies held[key]
        == store[key] by {
        assert(uploaded.contains_key(key) <==> is_key_of_file(locations, key));
    }
    assert forall|i: int|
        0 <= i < locations.len() && last_of_its_key(locations, i) implies holds_file(
        held[(#[trigger] locations[i]).key],
        locations[i],
        past.read[i],
        past.delivered,
    ) by {
        assert(made_of(assets[i], locations[i], past.read[i], past.delivered));
        assert forall|j: int| i < j < pairs.len() implies (#[trigger] pairs[j]).0 != pairs[i].0 by {
            assert(locations[j].key != locations[i].key);
        }
        lemma_last_counts(pairs, i);
        lemma_stored_file(assets[i], locations[i], past.read[i], past.delivered);
    }
    if distinct_names(past.delivered) {
        assert forall|i: int|
            0 <= i < locations.len() && last_of_its_key(locations, i) implies assembled(
            held[(#[trigger] locations[i]).key].encodings[IDENTITY@].chunk_ids,
            chunk_store(past.delivered),
        ) == past.read[i] by {
            lemma_assembled(
                held[locations[i].key].encodings[IDENTITY@].chunk_ids,
                past.read[i],
                past.delivered,
            );
        }
    }
}

/// An installation that ended well has committed everything: it came to the commit, and the canister
/// said that the commit was done. The result is how many events came before that answer.
pub proof fn lemma_success_means_committed<E>(
    locations: Seq<LocationView>,
    events: Seq<Event<E>>,
) -> (n: int)
    requires
        after(InstallView::<E>::List { locations }, events) == (InstallView::<E>::Finished {
            result: Ok(()),
        }),
    ensures
        0 <= n < events.len(),
        after(InstallView::<E>::List { locations }, events.take(n)) is Commit,
        events[n] == Event::<E>::Committed(Ok(())),
        exists|assets: Seq<AssetView>|
            commit_holds(
                after(InstallView::<E>::List { locations }, events.take(n)),
                locations,
                history(locations, events.take(n)),
                assets,
            ),
{
    let n = lemma_ok_only_by_commit(InstallView::<E>::List { locations }, events);
    let assets = lemma_commit_is_complete(locations, events.take(n));
    n
}

} // verus!
