//! The installation of a directory of files as the assets of a canister.
//!
//! An installation goes from state to state. Each state says what is to be done next, and is told
//! how that went; whoever carries the installation out does what the state says, and nothing else.
//!
//! The canister is asked for the assets it holds, and for a batch. Then the files are read and
//! uploaded one after the other, chunk by chunk. A chunk that could not be delivered is sent again
//! as long as there is time for that. Once every file is uploaded, the batch is committed, which
//! puts the files in place of the assets that the canister held. The first failure ends it all.

use crate::assets::{
    batch_operations, commit_operations, details_by_key, list_by_key, make_chunked_asset,
    uploaded_asset, AssetView, ChunkedAsset,
};
use crate::chunks::{
    chunk, chunk_count, data_chunk, num_chunks, progress, progress_line, MAX_CHUNK_SIZE,
};
use crate::keyed_list::KeyedList;
use crate::locations::{
    asset_locations, locations, path_below, walked_view, AssetLocation, LocationView, WalkedEntry,
};
use crate::media_type::{guess_media_type, guessed_media_type, UnknownContentType};
use crate::protocol::{
    AssetDetails, BatchOperationKind, CommitBatchArguments, CreateBatchResponse, CreateChunkRequest,
    CreateChunkResponse, DetailsView, OperationView,
};
use crate::text::decimal_value;
use crate::views::{option_view, result_view, views};
use candid::Nat;
use vstd::prelude::*;

verus! {

/// For how many seconds a chunk that could not be delivered is sent again.
pub const RETRY_TIMEOUT_SECONDS: u64 = 30;

/// How many seconds pass before a chunk is sent again.
pub const RETRY_PAUSE_SECONDS: u64 = 1;

/// Why an installation failed.
#[derive(Debug)]
pub enum InstallError<E> {
    /// Something that was to be done failed with this error.
    Failed(E),
    /// The type of a file's content could not be determined.
    UnknownContentType(UnknownContentType),
}

/// What an [`InstallError`] says.
pub enum InstallErrorView<E> {
    Failed(E),
    UnknownContentType { source: Seq<char> },
}

impl<E> View for InstallError<E> {
    type V = InstallErrorView<E>;

    open spec fn view(&self) -> InstallErrorView<E> {
        match self {
            InstallError::Failed(error) => InstallErrorView::Failed(*error),
            InstallError::UnknownContentType(unknown) => InstallErrorView::UnknownContentType {
                source: unknown@,
            },
        }
    }
}

/// An installation whose batch is open: the files to upload, what the canister held, the batch, and
/// the files that have been uploaded, which are the first ones.
pub struct ProgressView {
    pub locations: Seq<LocationView>,
    pub current: Seq<(Seq<char>, DetailsView)>,
    pub batch_id: Nat,
    pub chunked: Seq<AssetView>,
}

impl ProgressView {
    /// Some file has not been uploaded yet.
    pub open spec fn has_next(self) -> bool {
        self.chunked.len() < self.locations.len()
    }

    /// The first file that has not been uploaded.
    pub open spec fn next_location(self) -> LocationView {
        self.locations[self.chunked.len() as int]
    }
}

/// The upload of a file: its type, its content, and the names of the chunks that have been
/// delivered, which are the first ones.
pub struct UploadView {
    pub progress: ProgressView,
    pub media_type: Seq<char>,
    pub content: Seq<u8>,
    pub chunk_ids: Seq<Nat>,
}

impl UploadView {
    /// The file is the next one, and some chunk of it has not been delivered.
    pub open spec fn well_formed(self) -> bool {
        &&& self.progress.has_next()
        &&& self.chunk_ids.len() < chunk_count(self.content.len())
    }

    /// The first chunk that has not been delivered.
    pub open spec fn next_chunk(self) -> Seq<u8> {
        chunk(self.content, self.chunk_ids.len() as int)
    }

    /// The asset that the file makes once all its chunks have been delivered.
    pub open spec fn asset(self) -> AssetView {
        uploaded_asset(
            self.progress.next_location(),
            self.media_type,
            self.content,
            self.chunk_ids,
        )
    }
}

/// What an [`Install`] says.
pub enum InstallView<E> {
    List { locations: Seq<LocationView> },
    CreateBatch { locations: Seq<LocationView>, current: Seq<(Seq<char>, DetailsView)> },
    ReadSource { progress: ProgressView },
    EncodeChunk { upload: UploadView },
    CallCreateChunk { upload: UploadView },
    Wait { upload: UploadView, error: E },
    Commit { batch_id: Nat, operations: Seq<OperationView> },
    Finished { result: Result<(), InstallErrorView<E>> },
}

/// The end of an installation in which something failed with `error`.
pub open spec fn failed<E>(error: E) -> InstallView<E> {
    InstallView::Finished { result: Err(InstallErrorView::Failed(error)) }
}

/// The canister was asked for its assets.
pub open spec fn after_list<E>(
    locations: Seq<LocationView>,
    reply: Result<Seq<DetailsView>, E>,
) -> InstallView<E> {
    match reply {
        Ok(details) => InstallView::CreateBatch { locations, current: details_by_key(details) },
        Err(error) => failed(error),
    }
}

/// The canister was asked for a batch.
pub open spec fn after_create_batch<E>(
    locations: Seq<LocationView>,
    current: Seq<(Seq<char>, DetailsView)>,
    reply: Result<Nat, E>,
) -> InstallView<E> {
    match reply {
        Ok(batch_id) => on_to_next_file(
            ProgressView { locations, current, batch_id, chunked: Seq::empty() },
        ),
        Err(error) => failed(error),
    }
}

/// The next file is read; once all files are uploaded, the batch is committed.
pub open spec fn on_to_next_file<E>(progress: ProgressView) -> InstallView<E> {
    if progress.has_next() {
        InstallView::ReadSource { progress }
    } else {
        InstallView::Commit {
            batch_id: progress.batch_id,
            operations: batch_operations(progress.current, progress.chunked),
        }
    }
}

/// The content of the next file was read.
pub open spec fn after_read<E>(
    progress: ProgressView,
    reply: Result<Seq<u8>, E>,
) -> InstallView<E> {
    match reply {
        Ok(content) => with_media_type(
            progress,
            content,
            guessed_media_type(progress.next_location().source),
        ),
        Err(error) => failed(error),
    }
}

/// The type of the content of the next file was guessed.
pub open spec fn with_media_type<E>(
    progress: ProgressView,
    content: Seq<u8>,
    guess: Option<Seq<char>>,
) -> InstallView<E> {
    match guess {
        Some(media_type) => InstallView::EncodeChunk {
            upload: UploadView { progress, media_type, content, chunk_ids: Seq::empty() },
        },
        None => InstallView::Finished {
            result: Err(
                InstallErrorView::UnknownContentType { source: progress.next_location().source },
            ),
        },
    }
}

/// The next chunk was written out as a request.
pub open spec fn after_encode<E>(upload: UploadView, reply: Result<(), E>) -> InstallView<E> {
    match reply {
        Ok(_) => InstallView::CallCreateChunk { upload },
        Err(error) => failed(error),
    }
}

/// The request with the next chunk was sent.
pub open spec fn after_create_chunk<E>(
    upload: UploadView,
    reply: Result<Nat, E>,
) -> InstallView<E> {
    match reply {
        Ok(chunk_id) => on_to_next_chunk(
            UploadView { chunk_ids: upload.chunk_ids.push(chunk_id), ..upload },
        ),
        Err(error) => InstallView::Wait { upload, error },
    }
}

/// The next chunk is written out; once all chunks are delivered, the file is uploaded.
pub open spec fn on_to_next_chunk<E>(upload: UploadView) -> InstallView<E> {
    if upload.chunk_ids.len() < chunk_count(upload.content.len()) {
        InstallView::EncodeChunk { upload }
    } else {
        on_to_next_file(
            ProgressView {
                chunked: upload.progress.chunked.push(upload.asset()),
                ..upload.progress
            },
        )
    }
}

/// A pause was made because a chunk could not be delivered. If there is time, it is sent again.
pub open spec fn after_wait<E>(upload: UploadView, error: E, time_left: bool) -> InstallView<E> {
    if time_left {
        InstallView::CallCreateChunk { upload }
    } else {
        failed(error)
    }
}

/// The batch was committed.
pub open spec fn after_commit<E>(reply: Result<(), E>) -> InstallView<E> {
    match reply {
        Ok(_) => InstallView::Finished { result: Ok(()) },
        Err(error) => failed(error),
    }
}

/// An installation, by what is to be done next.
pub enum Install<E> {
    /// Ask the canister for the assets it holds.
    List(Listing),
    /// Ask the canister for a batch.
    CreateBatch(CreatingBatch),
    /// Read the content of a file.
    ReadSource(ReadingSource),
    /// Announce a chunk and write it out as a request.
    EncodeChunk(EncodingChunk),
    /// Send the request with the chunk.
    CallCreateChunk(CreatingChunk),
    /// Pause before the chunk is sent again, or find that there is no time left for that.
    Wait(Waiting<E>),
    /// Commit the batch.
    Commit(Committing),
    /// Nothing: this is how the installation ended.
    Finished(Result<(), InstallError<E>>),
}

impl<E> View for Install<E> {
    type V = InstallView<E>;

    open spec fn view(&self) -> InstallView<E> {
        match self {
            Install::List(state) => InstallView::List { locations: state@ },
            Install::CreateBatch(state) => InstallView::CreateBatch {
                locations: state@.0,
                current: state@.1,
            },
            Install::ReadSource(state) => InstallView::ReadSource { progress: state@ },
            Install::EncodeChunk(state) => InstallView::EncodeChunk { upload: state@ },
            Install::CallCreateChunk(state) => InstallView::CallCreateChunk { upload: state@ },
            Install::Wait(state) => InstallView::Wait { upload: state@.0, error: state@.1 },
            Install::Commit(state) => InstallView::Commit {
                batch_id: state@.0,
                operations: state@.1,
            },
            Install::Finished(result) => InstallView::Finished {
                result: match result {
                    Ok(_) => Ok(()),
                    Err(error) => Err(error@),
                },
            },
        }
    }
}

/// An installation of which only the files are known.
pub struct Listing {
    locations: Vec<AssetLocation>,
}

impl View for Listing {
    type V = Seq<LocationView>;

    closed spec fn view(&self) -> Seq<LocationView> {
        views(self.locations@)
    }
}

/// An installation that knows what the canister holds.
pub struct CreatingBatch {
    locations: Vec<AssetLocation>,
    current: KeyedList<AssetDetails>,
}

impl View for CreatingBatch {
    type V = (Seq<LocationView>, Seq<(Seq<char>, DetailsView)>);

    closed spec fn view(&self) -> (Seq<LocationView>, Seq<(Seq<char>, DetailsView)>) {
        (views(self.locations@), self.current@)
    }
}

struct Progress {
    locations: Vec<AssetLocation>,
    current: KeyedList<AssetDetails>,
    batch_id: Nat,
    chunked: Vec<ChunkedAsset>,
}

impl View for Progress {
    type V = ProgressView;

    closed spec fn view(&self) -> ProgressView {
        ProgressView {
            locations: views(self.locations@),
            current: self.current@,
            batch_id: self.batch_id,
            chunked: views(self.chunked@),
        }
    }
}

impl Progress {
    /// Uploads the next file, if there is one, and else commits the batch.
    fn make_chunked_assets<E>(self) -> (next: Install<E>)
        ensures
            next@ == on_to_next_file::<E>(self@),
    {
        if self.chunked.len() < self.locations.len() {
            Install::ReadSource(ReadingSource { progress: self })
        } else {
            let operations = commit_operations(&self.current, self.chunked);
            Install::Commit(Committing { batch_id: self.batch_id, operations })
        }
    }
}

/// An installation with a file to read.
pub struct ReadingSource {
    progress: Progress,
}

impl View for ReadingSource {
    type V = ProgressView;

    closed spec fn view(&self) -> ProgressView {
        self.progress@
    }
}

struct Upload {
    progress: Progress,
    media_type: String,
    content: Vec<u8>,
    chunk_ids: Vec<Nat>,
}

impl View for Upload {
    type V = UploadView;

    closed spec fn view(&self) -> UploadView {
        UploadView {
            progress: self.progress@,
            media_type: self.media_type@,
            content: self.content@,
            chunk_ids: self.chunk_ids@,
        }
    }
}

/// An installation with a chunk to write out as a request.
pub struct EncodingChunk {
    upload: Upload,
}

impl View for EncodingChunk {
    type V = UploadView;

    closed spec fn view(&self) -> UploadView {
        self.upload@
    }
}

/// An installation with a request for a chunk to send.
pub struct CreatingChunk {
    upload: Upload,
}

impl View for CreatingChunk {
    type V = UploadView;

    closed spec fn view(&self) -> UploadView {
        self.upload@
    }
}

/// An installation in which a chunk could not be delivered.
pub struct Waiting<E> {
    upload: Upload,
    error: E,
}

impl<E> View for Waiting<E> {
    type V = (UploadView, E);

    closed spec fn view(&self) -> (UploadView, E) {
        (self.upload@, self.error)
    }
}

/// An installation with a batch to commit.
pub struct Committing {
    batch_id: Nat,
    operations: Vec<BatchOperationKind>,
}

impl View for Committing {
    type V = (Nat, Seq<OperationView>);

    closed spec fn view(&self) -> (Nat, Seq<OperationView>) {
        (self.batch_id, views(self.operations@))
    }
}

fn fail<E>(error: E) -> (end: Install<E>)
    ensures
        end@ == failed(error),
        end == Install::Finished(Err(InstallError::Failed(error))),
{
    Install::Finished(Err(InstallError::Failed(error)))
}

/// Starts the installation of the regular files that a walk through `output_assets_path` came to.
/// There is none if a file's path does not start with `output_assets_path`.
pub fn post_install_store_assets<E>(
    walked: &Vec<Option<WalkedEntry>>,
    output_assets_path: &str,
) -> (start: Option<Install<E>>)
    ensures
        match start {
            Some(start) => locations(walked_view(walked@), output_assets_path@) matches Some(found)
                && start@ == (InstallView::<E>::List { locations: found }),
            None => locations(walked_view(walked@), output_assets_path@) is None,
        },
        start is None <==> exists|i: int|
            0 <= i < walked@.len() && (#[trigger] walked@[i]) is Some && walked@[i]->0.is_file
                && path_below(walked@[i]->0.path@, output_assets_path@) is None,
        start matches Some(start) ==> start is List,
        start matches Some(Install::List(state)) ==> {
            &&& forall|i: int|
                0 <= i < walked@.len() && (#[trigger] walked@[i]) is Some && walked@[i]->0.is_file
                    ==> exists|j: int|
                    0 <= j < state@.len() && (#[trigger] state@[j]).entry == i && state@[j].source
                        == walked@[i]->0.path@ && state@[j].key == "/"@ + path_below(
                        walked@[i]->0.path@,
                        output_assets_path@,
                    )->0
            &&& forall|j: int|
                0 <= j < state@.len() ==> {
                    let i = (#[trigger] state@[j]).entry;
                    &&& 0 <= i < walked@.len()
                    &&& walked@[i] is Some
                    &&& walked@[i]->0.is_file
                    &&& state@[j].source == walked@[i]->0.path@
                    &&& state@[j].key == "/"@ + path_below(
                        walked@[i]->0.path@,
                        output_assets_path@,
                    )->0
                }
            &&& forall|j: int, k: int|
                0 <= j < k < state@.len() ==> (#[trigger] state@[j]).entry < (
                #[trigger] state@[k]).entry
        },
{
    match asset_locations(walked, output_assets_path) {
        Some(locations) => {
            let state = Listing { locations };
            proof {
                let found = views(locations@);
                assert forall|i: int|
                    0 <= i < walked@.len() && (#[trigger] walked@[i]) is Some
                        && walked@[i]->0.is_file implies exists|j: int|
                    0 <= j < found.len() && (#[trigger] found[j]).entry == i && found[j].source
                        == walked@[i]->0.path@ && found[j].key == "/"@ + path_below(
                        walked@[i]->0.path@,
                        output_assets_path@,
                    )->0 by {
                    let j = choose|j: int|
                        0 <= j < locations@.len() && (#[trigger] locations@[j]).entry == i
                            && locations@[j].source@ == walked@[i]->0.path@
                            && locations@[j].key@ == "/"@ + path_below(
                            walked@[i]->0.path@,
                            output_assets_path@,
                        )->0;
                    assert(found[j].entry == i);
                }
                assert forall|j: int| 0 <= j < found.len() implies #[trigger] found[j]
                    == locations@[j]@ by {}
            }
            Some(Install::List(state))
        },
        None => None,
    }
}

impl Listing {
    /// Goes on when the canister was asked for its assets.
    pub fn list_assets<E>(self, reply: Result<Vec<AssetDetails>, E>) -> (next: Install<E>)
        ensures
            next@ == after_list(
                self@,
                match reply {
                    Ok(details) => Ok(views(details@)),
                    Err(error) => Err(error),
                },
            ),
            match reply {
                Ok(details) => next matches Install::CreateBatch(state) && state@.0 == self@
                    && state@.1 == details_by_key(views(details@)),
                Err(error) => next == Install::Finished(Err(InstallError::Failed(error))),
            },
    {
        match reply {
            Ok(details) => Install::CreateBatch(
                CreatingBatch { locations: self.locations, current: list_by_key(details) },
            ),
            Err(error) => fail(error),
        }
    }
}

impl CreatingBatch {
    /// Goes on when the canister was asked for a batch.
    pub fn create_batch<E>(self, reply: Result<CreateBatchResponse, E>) -> (next: Install<E>)
        ensures
            next@ == after_create_batch(
                self@.0,
                self@.1,
                match reply {
                    Ok(response) => Ok(response.batch_id),
                    Err(error) => Err(error),
                },
            ),
            match reply {
                Ok(response) => if self@.0.len() > 0 {
                    next matches Install::ReadSource(state) && state@.locations == self@.0
                        && state@.current == self@.1 && state@.batch_id == response.batch_id
                        && state@.chunked.len() == 0
                } else {
                    next matches Install::Commit(state) && state@.0 == response.batch_id && state@.1
                        == batch_operations(self@.1, Seq::empty())
                },
                Err(error) => next == Install::Finished(Err(InstallError::Failed(error))),
            },
    {
        match reply {
            Ok(response) => {
                let progress = Progress {
                    locations: self.locations,
                    current: self.current,
                    batch_id: response.batch_id,
                    chunked: Vec::new(),
                };
                assert(progress@.chunked =~= Seq::empty());
                progress.make_chunked_assets()
            },
            Err(error) => fail(error),
        }
    }
}

impl ReadingSource {
    #[verifier::type_invariant]
    spec fn well_formed(self) -> bool {
        self.progress@.has_next()
    }

    /// Where the file to read lies.
    pub fn location(&self) -> (location: &AssetLocation)
        ensures
            self@.has_next(),
            location@ == self@.next_location(),
            self@.chunked.len() < self@.locations.len(),
            location@ == self@.locations[self@.chunked.len() as int],
    {
        proof {
            use_type_invariant(self);
        }
        &self.progress.locations[self.progress.chunked.len()]
    }

    /// Goes on when the file was read.
    pub fn make_chunked_asset<E>(self, reply: Result<Vec<u8>, E>) -> (next: Install<E>)
        ensures
            self@.has_next(),
            next@ == after_read(self@, result_view(reply)),
            self@.chunked.len() < self@.locations.len(),
            match reply {
                Ok(content) => match guessed_media_type(
                    self@.locations[self@.chunked.len() as int].source,
                ) {
                    Some(media_type) => next matches Install::EncodeChunk(state) && state@.progress
                        == self@ && state@.media_type == media_type && state@.content == content@
                        && state@.chunk_ids.len() == 0,
                    None => next matches Install::Finished(Err(
                        InstallError::UnknownContentType(unknown),
                    )) && unknown.source@ == self@.locations[self@.chunked.len() as int].source,
                },
                Err(error) => next == Install::Finished(Err(InstallError::Failed(error))),
            },
    {
        match reply {
            Ok(content) => {
                let guess = guess_media_type(self.location().source.as_str());
                self.with_media_type(content, guess)
            },
            Err(error) => {
                proof {
                    use_type_invariant(&self);
                }
                fail(error)
            },
        }
    }

    /// Goes on with the content of the file and the guess at its type.
    pub fn with_media_type<E>(self, content: Vec<u8>, guess: Option<String>) -> (next: Install<E>)
        ensures
            self@.has_next(),
            next@ == with_media_type::<E>(self@, content@, option_view(guess)),
            self@.chunked.len() < self@.locations.len(),
            match guess {
                Some(media_type) => next matches Install::EncodeChunk(state) && state@.progress
                    == self@ && state@.media_type == media_type@ && state@.content == content@
                    && state@.chunk_ids.len() == 0,
                None => next matches Install::Finished(Err(
                    InstallError::UnknownContentType(unknown),
                )) && unknown.source@ == self@.locations[self@.chunked.len() as int].source,
            },
    {
        proof {
            use_type_invariant(&self);
        }
        match guess {
            Some(media_type) => {
                let upload = Upload {
                    progress: self.progress,
                    media_type,
                    content,
                    chunk_ids: Vec::new(),
                };
                assert(upload@.chunk_ids =~= Seq::empty());
                Install::EncodeChunk(EncodingChunk { upload })
            },
            None => {
                let source = self.location().source.clone();
                Install::Finished(
                    Err(InstallError::UnknownContentType(UnknownContentType { source })),
                )
            },
        }
    }
}

impl EncodingChunk {
    #[verifier::type_invariant]
    spec fn well_formed(self) -> bool {
        self.upload@.well_formed()
    }

    /// The line that announces the chunk.
    pub fn announcement(&self) -> (line: String)
        ensures
            self@.well_formed(),
            line@ == progress(
                self@.progress.next_location().key,
                self@.content,
                self@.chunk_ids.len() as int,
            ),
            self@.progress.chunked.len() < self@.progress.locations.len(),
            exists|number: Seq<char>, count: Seq<char>, size: Seq<char>|
                {
                    let key = self@.progress.locations[self@.progress.chunked.len() as int].key;
                    let start = self@.chunk_ids.len() * MAX_CHUNK_SIZE;
                    &&& line@ == "  "@ + key + " "@ + number + "/"@ + count + " ("@ + size
                        + " bytes)"@
                    &&& forall|k: int| 0 <= k < number.len() ==> '0' <= #[trigger] number[k] <= '9'
                    &&& forall|k: int| 0 <= k < count.len() ==> '0' <= #[trigger] count[k] <= '9'
                    &&& forall|k: int| 0 <= k < size.len() ==> '0' <= #[trigger] size[k] <= '9'
                    &&& number.len() > 0 && number[0] != '0'
                    &&& count.len() > 0 && count[0] != '0'
                    &&& size.len() > 0 && (size[0] == '0' ==> size.len() == 1)
                    &&& #[trigger] decimal_value(number) == self@.chunk_ids.len() + 1
                    &&& (#[trigger] decimal_value(count) - 1) * MAX_CHUNK_SIZE < self@.content.len()
                        || decimal_value(count) == 1
                    &&& self@.content.len() <= decimal_value(count) * MAX_CHUNK_SIZE
                    &&& #[trigger] decimal_value(size) == if self@.content.len() - start
                        > MAX_CHUNK_SIZE {
                        MAX_CHUNK_SIZE as int
                    } else {
                        self@.content.len() - start
                    }
                },
    {
        proof {
            use_type_invariant(self);
        }
        let upload = &self.upload;
        let location = &upload.progress.locations[upload.progress.chunked.len()];
        progress_line(location.key.as_str(), upload.content.as_slice(), upload.chunk_ids.len())
    }

    /// The request to write out.
    pub fn request(&self) -> (request: CreateChunkRequest<'_>)
        ensures
            self@.well_formed(),
            request.batch_id == self@.progress.batch_id,
            request.content@ == self@.next_chunk(),
            0 <= self@.chunk_ids.len() * MAX_CHUNK_SIZE <= self@.content.len(),
            request.content@ == self@.content.subrange(
                self@.chunk_ids.len() * MAX_CHUNK_SIZE,
                if self@.content.len() - self@.chunk_ids.len() * MAX_CHUNK_SIZE > MAX_CHUNK_SIZE {
                    (self@.chunk_ids.len() + 1) * MAX_CHUNK_SIZE
                } else {
                    self@.content.len() as int
                },
            ),
    {
        proof {
            use_type_invariant(self);
        }
        self.upload.request()
    }

    /// Goes on when the request was written out.
    pub fn encoded<E>(self, reply: Result<(), E>) -> (next: Install<E>)
        ensures
            self@.well_formed(),
            next@ == after_encode(self@, reply),
            match reply {
                Ok(_) => next matches Install::CallCreateChunk(state) && state@ == self@,
                Err(error) => next == Install::Finished(Err(InstallError::Failed(error))),
            },
    {
        proof {
            use_type_invariant(&self);
        }
        match reply {
            Ok(_) => Install::CallCreateChunk(CreatingChunk { upload: self.upload }),
            Err(error) => fail(error),
        }
    }
}

impl CreatingChunk {
    #[verifier::type_invariant]
    spec fn well_formed(self) -> bool {
        self.upload@.well_formed()
    }

    /// The request to send, on the first attempt and on every other.
    pub fn request(&self) -> (request: CreateChunkRequest<'_>)
        ensures
            self@.well_formed(),
            request.batch_id == self@.progress.batch_id,
            request.content@ == self@.next_chunk(),
            0 <= self@.chunk_ids.len() * MAX_CHUNK_SIZE <= self@.content.len(),
            request.content@ == self@.content.subrange(
                self@.chunk_ids.len() * MAX_CHUNK_SIZE,
                if self@.content.len() - self@.chunk_ids.len() * MAX_CHUNK_SIZE > MAX_CHUNK_SIZE {
                    (self@.chunk_ids.len() + 1) * MAX_CHUNK_SIZE
                } else {
                    self@.content.len() as int
                },
            ),
    {
        proof {
            use_type_invariant(self);
        }
        self.upload.request()
    }

    /// Goes on when the request was sent.
    pub fn create_chunk<E>(self, reply: Result<CreateChunkResponse, E>) -> (next: Install<E>)
        ensures
            self@.well_formed(),
            next@ == after_create_chunk(
                self@,
                match reply {
                    Ok(response) => Ok(response.chunk_id),
                    Err(error) => Err(error),
                },
            ),
            match reply {
                Ok(response) => {
                    let upload = self@;
                    let files = upload.progress.chunked.len() as int;
                    let chunk_ids = upload.chunk_ids.push(response.chunk_id);
                    if chunk_ids.len() * MAX_CHUNK_SIZE < upload.content.len() {
                        next matches Install::EncodeChunk(state) && state@.progress
                            == upload.progress && state@.media_type == upload.media_type
                            && state@.content == upload.content && state@.chunk_ids == chunk_ids
                    } else if files + 1 < upload.progress.locations.len() {
                        next matches Install::ReadSource(state) && state@.locations
                            == upload.progress.locations && state@.current
                            == upload.progress.current && state@.batch_id
                            == upload.progress.batch_id && state@.chunked
                            == upload.progress.chunked.push(
                            uploaded_asset(
                                upload.progress.locations[files],
                                upload.media_type,
                                upload.content,
                                chunk_ids,
                            ),
                        )
                    } else {
                        next matches Install::Commit(state) && state@.0 == upload.progress.batch_id
                            && state@.1 == batch_operations(
                            upload.progress.current,
                            upload.progress.chunked.push(
                                uploaded_asset(
                                    upload.progress.locations[files],
                                    upload.media_type,
                                    upload.content,
                                    chunk_ids,
                                ),
                            ),
                        )
                    }
                },
                Err(error) => next matches Install::Wait(state) && state@.0 == self@ && state@.1
                    == error,
            },
    {
        proof {
            use_type_invariant(&self);
        }
        match reply {
            Ok(response) => self.upload.upload_content_chunks(response.chunk_id),
            Err(error) => Install::Wait(Waiting { upload: self.upload, error }),
        }
    }
}

impl Upload {
    /// The request with the first chunk that has not been delivered.
    fn request(&self) -> (request: CreateChunkRequest<'_>)
        requires
            self@.well_formed(),
        ensures
            request.batch_id == self@.progress.batch_id,
            request.content@ == self@.next_chunk(),
            0 <= self@.chunk_ids.len() * MAX_CHUNK_SIZE <= self@.content.len(),
            request.content@ == self@.content.subrange(
                self@.chunk_ids.len() * MAX_CHUNK_SIZE,
                if self@.content.len() - self@.chunk_ids.len() * MAX_CHUNK_SIZE > MAX_CHUNK_SIZE {
                    (self@.chunk_ids.len() + 1) * MAX_CHUNK_SIZE
                } else {
                    self@.content.len() as int
                },
            ),
    {
        CreateChunkRequest {
            batch_id: self.progress.batch_id.clone(),
            content: data_chunk(self.content.as_slice(), self.chunk_ids.len()),
        }
    }

    /// Sends the next chunk, if there is one, and else goes on to the next file. The chunk before it
    /// was delivered and got the name `chunk_id`.
    fn upload_content_chunks<E>(self, chunk_id: Nat) -> (next: Install<E>)
        requires
            self@.well_formed(),
        ensures
            next@ == after_create_chunk::<E>(self@, Ok(chunk_id)),
    {
        let ghost before = self@;
        let mut chunk_ids = self.chunk_ids;
        chunk_ids.push(chunk_id);
        if chunk_ids.len() < num_chunks(self.content.as_slice()) {
            Install::EncodeChunk(
                EncodingChunk {
                    upload: Upload {
                        progress: self.progress,
                        media_type: self.media_type,
                        content: self.content,
                        chunk_ids,
                    },
                },
            )
        } else {
            let location = self.progress.locations[self.progress.chunked.len()].clone();
            let asset = make_chunked_asset(
                location,
                self.media_type,
                self.content.as_slice(),
                chunk_ids,
            );
            let mut chunked = self.progress.chunked;
            chunked.push(asset);
            let progress = Progress {
                locations: self.progress.locations,
                current: self.progress.current,
                batch_id: self.progress.batch_id,
                chunked,
            };
            assert(progress@.chunked =~= before.progress.chunked.push(asset@));
            progress.make_chunked_assets()
        }
    }
}

impl<E> Waiting<E> {
    #[verifier::type_invariant]
    spec fn well_formed(self) -> bool {
        self.upload@.well_formed()
    }

    /// Goes on after the pause, or without it if no time is left.
    pub fn wait(self, time_left: bool) -> (next: Install<E>)
        ensures
            self@.0.well_formed(),
            next@ == after_wait(self@.0, self@.1, time_left),
            time_left ==> (next matches Install::CallCreateChunk(state) && state@ == self@.0),
            !time_left ==> next == Install::Finished(Err(InstallError::Failed(self@.1))),
    {
        proof {
            use_type_invariant(&self);
        }
        if time_left {
            Install::CallCreateChunk(CreatingChunk { upload: self.upload })
        } else {
            fail(self.error)
        }
    }
}

impl Committing {
    /// What to commit.
    pub fn arguments(&self) -> (arguments: CommitBatchArguments<'_>)
        ensures
            *arguments.batch_id == self@.0,
            views(arguments.operations@) == self@.1,
            arguments.operations@.len() == self@.1.len(),
            forall|p: int|
                0 <= p < self@.1.len() ==> (#[trigger] arguments.operations@[p])@ == self@.1[p],
    {
        CommitBatchArguments { batch_id: &self.batch_id, operations: &self.operations }
    }

    /// Ends the installation when the batch was committed.
    pub fn commit_batch<E>(self, reply: Result<(), E>) -> (end: Install<E>)
        ensures
            end@ == after_commit(reply),
            match reply {
                Ok(_) => end == Install::<E>::Finished(Ok(())),
                Err(error) => end == Install::Finished(Err(InstallError::Failed(error))),
            },
    {
        match reply {
            Ok(_) => Install::Finished(Ok(())),
            Err(error) => fail(error),
        }
    }
}

/// What is announced is what is sent: the size in the line that announces a chunk reads as the number
/// of bytes in the request for the chunk, the number of the chunk reads as one more than the number
/// of chunks that were delivered, and the number of chunks is how many the content takes.
pub proof fn lemma_announced_as_sent(
    state: &EncodingChunk,
    line: String,
    request: CreateChunkRequest<'_>,
)
    requires
        call_ensures(EncodingChunk::announcement, (state,), line),
        call_ensures(EncodingChunk::request, (state,), request),
    ensures
        exists|number: Seq<char>, count: Seq<char>, size: Seq<char>|
            {
                let upload = state@;
                let key = upload.progress.locations[upload.progress.chunked.len() as int].key;
                &&& line@ == "  "@ + key + " "@ + number + "/"@ + count + " ("@ + size
                    + " bytes)"@
                &&& forall|k: int| 0 <= k < number.len() ==> '0' <= #[trigger] number[k] <= '9'
                &&& forall|k: int| 0 <= k < count.len() ==> '0' <= #[trigger] count[k] <= '9'
                &&& forall|k: int| 0 <= k < size.len() ==> '0' <= #[trigger] size[k] <= '9'
                &&& #[trigger] decimal_value(number) == upload.chunk_ids.len() + 1
                &&& (#[trigger] decimal_value(count) - 1) * MAX_CHUNK_SIZE < upload.content.len()
                    || decimal_value(count) == 1
                &&& upload.content.len() <= decimal_value(count) * MAX_CHUNK_SIZE
                &&& #[trigger] decimal_value(size) == request.content@.len()
            },
{
}

/// Whatever happens, a chunk that is sent again is sent as it was: while it waits and when it is sent
/// once more, the request is the same.
pub proof fn lemma_sent_again_as_sent<E>(
    state: CreatingChunk,
    error: E,
    waiting: Waiting<E>,
    again: CreatingChunk,
    first: CreateChunkRequest<'_>,
    second: CreateChunkRequest<'_>,
)
    requires
        call_ensures(CreatingChunk::create_chunk::<E>, (state, Err(error)), Install::Wait(waiting)),
        call_ensures(Waiting::<E>::wait, (waiting, true), Install::CallCreateChunk(again)),
        call_ensures(CreatingChunk::request, (&state,), first),
        call_ensures(CreatingChunk::request, (&again,), second),
    ensures
        first.batch_id == second.batch_id,
        first.content@ == second.content@,
{
}

/// What an installation says is what its state says.
pub proof fn lemma_install_view<E>(install: Install<E>)
    ensures
        match install {
            Install::List(state) => install@ == (InstallView::<E>::List { locations: state@ }),
            Install::CreateBatch(state) => install@ == (InstallView::<E>::CreateBatch {
                locations: state@.0,
                current: state@.1,
            }),
            Install::ReadSource(state) => install@ == (InstallView::<E>::ReadSource {
                progress: state@,
            }),
            Install::EncodeChunk(state) => install@ == (InstallView::<E>::EncodeChunk {
                upload: state@,
            }),
            Install::CallCreateChunk(state) => install@ == (InstallView::<E>::CallCreateChunk {
                upload: state@,
            }),
            Install::Wait(state) => install@ == (InstallView::Wait {
                upload: state@.0,
                error: state@.1,
            }),
            Install::Commit(state) => install@ == (InstallView::<E>::Commit {
                batch_id: state@.0,
                operations: state@.1,
            }),
            Install::Finished(Ok(_)) => install@ == (InstallView::<E>::Finished { result: Ok(()) }),
            Install::Finished(Err(InstallError::Failed(error))) => install@ == (
            InstallView::Finished { result: Err(InstallErrorView::Failed(error)) }),
            Install::Finished(Err(InstallError::UnknownContentType(unknown))) => install@ == (
            InstallView::<E>::Finished {
                result: Err(
                    InstallErrorView::UnknownContentType { source: unknown.source@ },
                ),
            }),
        },
{
}

} // verus!
