//! What holds of whole installations.

use crate::assets::{batch_operations, details_by_key, uploaded_asset, AssetView};
use crate::chunks::chunk_count;
use crate::install::{
    after_commit, after_create_batch, after_create_chunk, after_encode, after_list, after_read,
    after_wait, failed, on_to_next_chunk, on_to_next_file, InstallErrorView, InstallView,
    ProgressView, UploadView,
};
use crate::locations::LocationView;
use crate::media_type::guessed_media_type;
use crate::protocol::DetailsView;
use candid::Nat;
use vstd::prelude::*;

verus! {

/// How it went to do what an installation said.
pub enum Event<E> {
    Listed(Result<Seq<DetailsView>, E>),
    BatchCreated(Result<Nat, E>),
    SourceRead(Result<Seq<u8>, E>),
    ChunkEncoded(Result<(), E>),
    ChunkCreated(Result<Nat, E>),
    Waited(bool),
    Committed(Result<(), E>),
}

/// The state of an installation after an event; one that the state does not wait for changes
/// nothing.
pub open spec fn next<E>(state: InstallView<E>, event: Event<E>) -> InstallView<E> {
    match (state, event) {
        (InstallView::List { locations }, Event::Listed(reply)) => after_list(locations, reply),
        (
            InstallView::CreateBatch { locations, current },
            Event::BatchCreated(reply),
        ) => after_create_batch(locations, current, reply),
        (InstallView::ReadSource { progress }, Event::SourceRead(reply)) => after_read(
            progress,
            reply,
        ),
        (InstallView::EncodeChunk { upload }, Event::ChunkEncoded(reply)) => after_encode(
            upload,
            reply,
        ),
        (InstallView::CallCreateChunk { upload }, Event::ChunkCreated(reply)) => after_create_chunk(
            upload,
            reply,
        ),
        (InstallView::Wait { upload, error }, Event::Waited(time_left)) => after_wait(
            upload,
            error,
            time_left,
        ),
        (InstallView::Commit { batch_id, operations }, Event::Committed(reply)) => after_commit(
            reply,
        ),
        _ => state,
    }
}

/// The state of an installation after events, in order.
pub open spec fn after<E>(start: InstallView<E>, events: Seq<Event<E>>) -> InstallView<E>
    decreases events.len(),
{
    if events.len() == 0 {
        start
    } else {
        next(after(start, events.drop_last()), events.last())
    }
}

/// An installation goes on from where it is, however it got there.
pub proof fn lemma_after_concat<E>(
    start: InstallView<E>,
    first: Seq<Event<E>>,
    second: Seq<Event<E>>,
)
    ensures
        after(start, first + second) == after(after(start, first), second),
    decreases second.len(),
{
    if second.len() == 0 {
        assert(first + second =~= first);
    } else {
        assert((first + second).drop_last() =~= first + second.drop_last());
        lemma_after_concat(start, first, second.drop_last());
    }
}

/// Once an installation has ended, nothing changes how it ended.
pub proof fn lemma_finished_for_good<E>(start: InstallView<E>, events: Seq<Event<E>>)
    requires
        start is Finished,
    ensures
        after(start, events) == start,
    decreases events.len(),
{
    if events.len() > 0 {
        lemma_finished_for_good(start, events.drop_last());
    }
}

/// The error with which an installation in `state` ends when `event` comes, if it ends with one that
/// it was told. An attempt to deliver a chunk may fail; that no time is left for another is what
/// ends the installation.
pub open spec fn failure<E>(state: InstallView<E>, event: Event<E>) -> Option<E> {
    match (state, event) {
        (InstallView::List { locations }, Event::Listed(Err(error))) => Some(error),
        (
            InstallView::CreateBatch { locations, current },
            Event::BatchCreated(Err(error)),
        ) => Some(error),
        (InstallView::ReadSource { progress }, Event::SourceRead(Err(error))) => Some(error),
        (InstallView::EncodeChunk { upload }, Event::ChunkEncoded(Err(error))) => Some(error),
        (InstallView::Wait { upload, error }, Event::Waited(false)) => Some(error),
        (InstallView::Commit { batch_id, operations }, Event::Committed(Err(error))) => Some(error),
        _ => None,
    }
}

/// The first failure ends an installation, with its error, whatever comes later.
pub proof fn lemma_first_failure_ends<E>(
    start: InstallView<E>,
    events: Seq<Event<E>>,
    event: Event<E>,
    later: Seq<Event<E>>,
)
    requires
        failure(after(start, events), event) is Some,
    ensures
        after(start, events.push(event) + later) == failed(
            failure(after(start, events), event)->0,
        ),
{
    assert(events.push(event).drop_last() =~= events);
    lemma_after_concat(start, events.push(event), later);
    lemma_finished_for_good(after(start, events.push(event)), later);
}

/// Whatever came before and whatever comes later: if the canister cannot be asked for its assets or
/// for a batch, a file cannot be read or its type is not known, a request cannot be written out, or
/// the batch cannot be committed, the installation ends with just that error; if a chunk cannot be
/// delivered, it ends with the error of that only when no time is left, and else the same chunk is
/// sent again.
pub proof fn lemma_failures<E>(
    start: InstallView<E>,
    events: Seq<Event<E>>,
    error: E,
    content: Seq<u8>,
    later: Seq<Event<E>>,
)
    ensures
        ({
            let state = after(start, events);
            let ended = InstallView::Finished { result: Err(InstallErrorView::Failed(error)) };
            &&& state is List ==> after(start, events.push(Event::Listed(Err(error))) + later)
                == ended
            &&& state is CreateBatch ==> after(
                start,
                events.push(Event::BatchCreated(Err(error))) + later,
            ) == ended
            &&& state is ReadSource ==> after(
                start,
                events.push(Event::SourceRead(Err(error))) + later,
            ) == ended
            &&& state matches InstallView::ReadSource { progress } ==> {
                let source = progress.locations[progress.chunked.len() as int].source;
                guessed_media_type(source) is None ==> after(
                    start,
                    events.push(Event::SourceRead(Ok(content))) + later,
                ) == (InstallView::<E>::Finished {
                    result: Err(InstallErrorView::UnknownContentType { source }),
                })
            }
            &&& state is EncodeChunk ==> after(
                start,
                events.push(Event::ChunkEncoded(Err(error))) + later,
            ) == ended
            &&& state matches InstallView::CallCreateChunk { upload } ==> after(
                start,
                events.push(Event::ChunkCreated(Err(error))),
            ) == (InstallView::Wait { upload, error })
            &&& state matches InstallView::Wait { upload, error: last } ==> {
                &&& after(start, events.push(Event::Waited(false)) + later) == (
                InstallView::Finished { result: Err(InstallErrorView::Failed(last)) })
                &&& after(start, events.push(Event::Waited(true))) == (
                InstallView::<E>::CallCreateChunk { upload })
            }
            &&& state is Commit ==> after(start, events.push(Event::Committed(Err(error))) + later)
                == ended
        }),
{
    lemma_event_then(start, events, Event::Listed(Err(error)), later);
    lemma_event_then(start, events, Event::BatchCreated(Err(error)), later);
    lemma_event_then(start, events, Event::SourceRead(Err(error)), later);
    lemma_event_then(start, events, Event::SourceRead(Ok(content)), later);
    lemma_event_then(start, events, Event::ChunkEncoded(Err(error)), later);
    lemma_event_then(start, events, Event::ChunkCreated(Err(error)), later);
    lemma_event_then(start, events, Event::Waited(false), later);
    lemma_event_then(start, events, Event::Waited(true), later);
    lemma_event_then(start, events, Event::Committed(Err(error)), later);
}

proof fn lemma_event_then<E>(
    start: InstallView<E>,
    events: Seq<Event<E>>,
    event: Event<E>,
    later: Seq<Event<E>>,
)
    ensures
        after(start, events.push(event)) == next(after(start, events), event),
        next(after(start, events), event) is Finished ==> after(start, events.push(event) + later)
            == next(after(start, events), event),
{
    assert(events.push(event).drop_last() =~= events);
    lemma_after_concat(start, events.push(event), later);
    if next(after(start, events), event) is Finished {
        lemma_finished_for_good(next(after(start, events), event), later);
    }
}

/// An installation ends well only by a commit: if it had not ended at the start, it came to the
/// commit, and the next event that this state waits for was that the commit was done. The result is
/// how many events came before that one.
pub proof fn lemma_ok_only_by_commit<E>(start: InstallView<E>, events: Seq<Event<E>>) -> (n: int)
    requires
        !(start is Finished),
        after(start, events) == (InstallView::<E>::Finished { result: Ok(()) }),
    ensures
        0 <= n < events.len(),
        after(start, events.take(n)) is Commit,
        events[n] == Event::<E>::Committed(Ok(())),
    decreases events.len(),
{
    let front = events.drop_last();
    let last = events.len() - 1;
    if after(start, front) is Finished {
        let n = lemma_ok_only_by_commit(start, front);
        assert(front.take(n) =~= events.take(n));
        n
    } else {
        assert(events.take(last) =~= front);
        assert(events.last() is Committed);
        if let Event::Committed(reply) = events.last() {
            match reply {
                Ok(done) => {
                    assert(done == ());
                },
                Err(_) => {
                    assert(false);
                },
            }
        }
        last
    }
}

/// The attempts to deliver a chunk that failed with `failures`, each followed by a pause.
pub open spec fn failed_attempts<E>(failures: Seq<E>) -> Seq<Event<E>> {
    failures.map_values(
        |error: E| seq![Event::ChunkCreated(Err(error)), Event::Waited(true)],
    ).flatten()
}

proof fn lemma_failed_attempts<E>(upload: UploadView, failures: Seq<E>)
    ensures
        after(InstallView::<E>::CallCreateChunk { upload }, failed_attempts(failures)) == (
        InstallView::<E>::CallCreateChunk { upload }),
    decreases failures.len(),
{
    let start = InstallView::<E>::CallCreateChunk { upload };
    let parts = failures.map_values(
        |error: E| seq![Event::ChunkCreated(Err(error)), Event::Waited(true)],
    );
    if failures.len() == 0 {
        assert(parts.flatten() =~= Seq::empty());
    } else {
        let front = failures.drop_last();
        let one = seq![Event::ChunkCreated(Err(failures.last())), Event::Waited(true)];
        let earlier = front.map_values(
            |error: E| seq![Event::ChunkCreated(Err(error)), Event::Waited(true)],
        );
        assert(parts =~= earlier.push(one));
        earlier.lemma_flatten_push(one);
        lemma_failed_attempts(upload, front);
        lemma_after_concat(start, failed_attempts(front), one);
        lemma_two(start, one);
    }
}

proof fn lemma_one<E>(start: InstallView<E>, events: Seq<Event<E>>)
    requires
        events.len() == 1,
    ensures
        after(start, events) == next(start, events[0]),
{
    assert(after(start, events.drop_last()) == start);
}

proof fn lemma_two<E>(start: InstallView<E>, events: Seq<Event<E>>)
    requires
        events.len() == 2,
    ensures
        after(start, events) == next(next(start, events[0]), events[1]),
{
    lemma_one(start, events.drop_last());
}

/// A chunk that could not be delivered although it was sent again and again until no time was left
/// fails the installation with the error of the last attempt.
pub proof fn lemma_out_of_time<E>(upload: UploadView, failures: Seq<E>)
    requires
        failures.len() > 0,
    ensures
        after(
            InstallView::<E>::CallCreateChunk { upload },
            failed_attempts(failures.drop_last()) + seq![
                Event::ChunkCreated(Err(failures.last())),
                Event::Waited(false),
            ],
        ) == failed(failures.last()),
{
    let start = InstallView::<E>::CallCreateChunk { upload };
    let end = seq![Event::ChunkCreated(Err(failures.last())), Event::Waited(false)];
    lemma_failed_attempts(upload, failures.drop_last());
    lemma_after_concat(start, failed_attempts(failures.drop_last()), end);
    lemma_two(start, end);
}

/// The delivery of a chunk: after some failures it gets a name.
pub struct Delivery<E> {
    pub failures: Seq<E>,
    pub chunk_id: Nat,
}

impl<E> Delivery<E> {
    pub open spec fn events(self) -> Seq<Event<E>> {
        seq![Event::ChunkEncoded(Ok(()))] + failed_attempts(self.failures) + seq![
            Event::ChunkCreated(Ok(self.chunk_id)),
        ]
    }
}

/// The upload of a file: its content, and the delivery of each of its chunks.
pub struct FileUpload<E> {
    pub content: Seq<u8>,
    pub deliveries: Seq<Delivery<E>>,
}

impl<E> FileUpload<E> {
    /// There is a delivery for every chunk.
    pub open spec fn complete(self) -> bool {
        self.deliveries.len() == chunk_count(self.content.len())
    }

    pub open spec fn chunk_ids(self) -> Seq<Nat> {
        self.deliveries.map_values(|delivery: Delivery<E>| delivery.chunk_id)
    }

    pub open spec fn events(self) -> Seq<Event<E>> {
        seq![Event::SourceRead(Ok(self.content))] + self.deliveries.map_values(
            |delivery: Delivery<E>| delivery.events(),
        ).flatten()
    }

    /// The asset that the file at `location` makes.
    pub open spec fn asset(self, location: LocationView) -> AssetView {
        uploaded_asset(
            location,
            guessed_media_type(location.source)->0,
            self.content,
            self.chunk_ids(),
        )
    }
}

/// There is a complete upload for each of `locations`, and each is of a known type.
pub open spec fn all_complete<E>(
    locations: Seq<LocationView>,
    files: Seq<FileUpload<E>>,
) -> bool {
    &&& files.len() == locations.len()
    &&& forall|i: int|
        0 <= i < files.len() ==> (#[trigger] files[i]).complete() && guessed_media_type(
            locations[i].source,
        ) is Some
}

/// The assets that the files at `locations` make.
pub open spec fn assets_of<E>(locations: Seq<LocationView>, files: Seq<FileUpload<E>>) -> Seq<
    AssetView,
> {
    Seq::new(files.len(), |i: int| files[i].asset(locations[i]))
}

/// The events up to the commit of an installation in which the canister lists `details`, opens the
/// batch `batch_id`, and takes `files`.
pub open spec fn upload_events<E>(
    details: Seq<DetailsView>,
    batch_id: Nat,
    files: Seq<FileUpload<E>>,
) -> Seq<Event<E>> {
    seq![Event::Listed(Ok(details)), Event::BatchCreated(Ok(batch_id))] + files.map_values(
        |file: FileUpload<E>| file.events(),
    ).flatten()
}

proof fn lemma_delivery<E>(upload: UploadView, delivery: Delivery<E>)
    ensures
        after(InstallView::<E>::EncodeChunk { upload }, delivery.events()) == after_create_chunk::<
            E,
        >(upload, Ok(delivery.chunk_id)),
{
    let start = InstallView::<E>::EncodeChunk { upload };
    let encoded = seq![Event::<E>::ChunkEncoded(Ok(()))];
    let attempts = failed_attempts(delivery.failures);
    let delivered = seq![Event::<E>::ChunkCreated(Ok(delivery.chunk_id))];
    lemma_after_concat(start, encoded, attempts);
    lemma_after_concat(start, encoded + attempts, delivered);
    lemma_one(start, encoded);
    lemma_failed_attempts(upload, delivery.failures);
    lemma_one(InstallView::<E>::CallCreateChunk { upload }, delivered);
}

proof fn lemma_deliveries<E>(upload: UploadView, file: FileUpload<E>, n: int)
    requires
        upload.content == file.content,
        upload.chunk_ids == Seq::<Nat>::empty(),
        file.complete(),
        0 <= n <= file.deliveries.len(),
    ensures
        after(
            InstallView::<E>::EncodeChunk { upload },
            file.deliveries.take(n).map_values(
                |delivery: Delivery<E>| delivery.events(),
            ).flatten(),
        ) == on_to_next_chunk::<E>(
            UploadView { chunk_ids: file.chunk_ids().take(n), ..upload },
        ),
    decreases n,
{
    let start = InstallView::<E>::EncodeChunk { upload };
    let parts = file.deliveries.take(n).map_values(
        |delivery: Delivery<E>| delivery.events(),
    );
    if n == 0 {
        assert(parts.flatten() =~= Seq::empty());
        assert(file.chunk_ids().take(0) =~= upload.chunk_ids);
    } else {
        let earlier = file.deliveries.take(n - 1).map_values(
            |delivery: Delivery<E>| delivery.events(),
        );
        let delivery = file.deliveries[n - 1];
        assert(parts =~= earlier.push(delivery.events()));
        earlier.lemma_flatten_push(delivery.events());
        lemma_deliveries(upload, file, n - 1);
        lemma_after_concat(start, earlier.flatten(), delivery.events());
        let before = UploadView { chunk_ids: file.chunk_ids().take(n - 1), ..upload };
        lemma_delivery(before, delivery);
        assert(before.chunk_ids.push(delivery.chunk_id) =~= file.chunk_ids().take(n));
    }
}

proof fn lemma_file<E>(progress: ProgressView, file: FileUpload<E>)
    requires
        progress.has_next(),
        guessed_media_type(progress.next_location().source) is Some,
        file.complete(),
    ensures
        after(InstallView::<E>::ReadSource { progress }, file.events()) == on_to_next_file::<E>(
            ProgressView {
                chunked: progress.chunked.push(file.asset(progress.next_location())),
                ..progress
            },
        ),
{
    let start = InstallView::<E>::ReadSource { progress };
    let read = seq![Event::<E>::SourceRead(Ok(file.content))];
    let rest = file.deliveries.map_values(|delivery: Delivery<E>| delivery.events()).flatten();
    lemma_after_concat(start, read, rest);
    lemma_one(start, read);
    let upload = UploadView {
        progress,
        media_type: guessed_media_type(progress.next_location().source)->0,
        content: file.content,
        chunk_ids: Seq::empty(),
    };
    let n = file.deliveries.len() as int;
    lemma_deliveries(upload, file, n);
    assert(file.deliveries.take(n) =~= file.deliveries);
    assert(file.chunk_ids().take(n) =~= file.chunk_ids());
}

proof fn lemma_files<E>(progress: ProgressView, files: Seq<FileUpload<E>>, n: int)
    requires
        progress.chunked == Seq::<AssetView>::empty(),
        all_complete(progress.locations, files),
        0 <= n <= files.len(),
    ensures
        after(
            on_to_next_file::<E>(progress),
            files.take(n).map_values(|file: FileUpload<E>| file.events()).flatten(),
        ) == on_to_next_file::<E>(
            ProgressView { chunked: assets_of(progress.locations, files).take(n), ..progress },
        ),
    decreases n,
{
    let start = on_to_next_file::<E>(progress);
    let parts = files.take(n).map_values(|file: FileUpload<E>| file.events());
    if n == 0 {
        assert(parts.flatten() =~= Seq::empty());
        assert(assets_of(progress.locations, files).take(0) =~= progress.chunked);
    } else {
        let earlier = files.take(n - 1).map_values(|file: FileUpload<E>| file.events());
        let file = files[n - 1];
        assert(parts =~= earlier.push(file.events()));
        earlier.lemma_flatten_push(file.events());
        lemma_files(progress, files, n - 1);
        lemma_after_concat(start, earlier.flatten(), file.events());
        let before = ProgressView {
            chunked: assets_of(progress.locations, files).take(n - 1),
            ..progress
        };
        lemma_file(before, file);
        assert(before.chunked.push(file.asset(before.next_location())) =~= assets_of(
            progress.locations,
            files,
        ).take(n));
    }
}

/// An installation in which all goes well, though chunks may have to be sent more than once, commits
/// the assets that its files make, and ends well once that is done.
pub proof fn lemma_installation_succeeds<E>(
    locations: Seq<LocationView>,
    details: Seq<DetailsView>,
    batch_id: Nat,
    files: Seq<FileUpload<E>>,
)
    requires
        all_complete(locations, files),
    ensures
        after(
            InstallView::<E>::List { locations },
            upload_events(details, batch_id, files),
        ) == (InstallView::<E>::Commit {
            batch_id,
            operations: batch_operations(details_by_key(details), assets_of(locations, files)),
        }),
        after(
            InstallView::<E>::List { locations },
            upload_events(details, batch_id, files).push(Event::Committed(Ok(()))),
        ) == (InstallView::<E>::Finished { result: Ok(()) }),
{
    let start = InstallView::<E>::List { locations };
    let opening = seq![Event::<E>::Listed(Ok(details)), Event::BatchCreated(Ok(batch_id))];
    let rest = files.map_values(|file: FileUpload<E>| file.events()).flatten();
    let progress = ProgressView {
        locations,
        current: details_by_key(details),
        batch_id,
        chunked: Seq::empty(),
    };
    let n = files.len() as int;
    lemma_after_concat(start, opening, rest);
    lemma_two(start, opening);
    lemma_files(progress, files, n);
    assert(files.take(n) =~= files);
    assert(assets_of(locations, files).take(n) =~= assets_of(locations, files));
    let events = upload_events(details, batch_id, files);
    assert(events.push(Event::Committed(Ok(()))).drop_last() =~= events);
}

} // verus!
