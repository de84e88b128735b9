//! What is said to an asset canister and what it answers.

use crate::views::{option_view, views};
use candid::Nat;
use vstd::prelude::*;

verus! {

/// The canister's method that opens a batch.
pub const CREATE_BATCH: &'static str = "create_batch";

/// The canister's method that takes a chunk of content.
pub const CREATE_CHUNK: &'static str = "create_chunk";

/// The canister's method that carries out the operations of a batch.
pub const COMMIT_BATCH: &'static str = "commit_batch";

/// The canister's method that lists the assets it holds.
pub const LIST: &'static str = "list";

/// Natural numbers of `candid`, by which a canister names its batches and chunks. They are passed
/// on and never looked into.
#[verifier::external_type_specification]
#[verifier::external_body]
pub struct ExNat(candid::Nat);

/// `candid` derives the clone of a natural number. Trusted: it is the same number.
pub assume_specification[ <candid::Nat as Clone>::clone ](n: &candid::Nat) -> (copy: candid::Nat)
    ensures
        copy == *n,
;

/// The answer to [`CREATE_BATCH`].
#[derive(Debug)]
pub struct CreateBatchResponse {
    pub batch_id: Nat,
}

/// The argument of [`CREATE_CHUNK`].
#[derive(Debug)]
pub struct CreateChunkRequest<'a> {
    pub batch_id: Nat,
    pub content: &'a [u8],
}

/// The answer to [`CREATE_CHUNK`].
#[derive(Debug)]
pub struct CreateChunkResponse {
    pub chunk_id: Nat,
}

/// One encoding in which a canister holds an asset.
#[derive(Debug)]
pub struct AssetEncodingDetails {
    pub content_encoding: String,
    pub sha256: Option<Vec<u8>>,
}

/// What an [`AssetEncodingDetails`] says.
pub struct EncodingDetailsView {
    pub content_encoding: Seq<char>,
    pub sha256: Option<Seq<u8>>,
}

impl View for AssetEncodingDetails {
    type V = EncodingDetailsView;

    open spec fn view(&self) -> EncodingDetailsView {
        EncodingDetailsView {
            content_encoding: self.content_encoding@,
            sha256: option_view(self.sha256),
        }
    }
}

/// One asset that a canister holds: an item of the answer to [`LIST`].
#[derive(Debug)]
pub struct AssetDetails {
    pub key: String,
    pub encodings: Vec<AssetEncodingDetails>,
    pub content_type: String,
}

/// What an [`AssetDetails`] says.
pub struct DetailsView {
    pub key: Seq<char>,
    pub encodings: Seq<EncodingDetailsView>,
    pub content_type: Seq<char>,
}

impl View for AssetDetails {
    type V = DetailsView;

    open spec fn view(&self) -> DetailsView {
        DetailsView {
            key: self.key@,
            encodings: views(self.encodings@),
            content_type: self.content_type@,
        }
    }
}

/// Creates an asset without content.
#[derive(Debug, PartialEq)]
pub struct CreateAssetArguments {
    pub key: String,
    pub content_type: String,
}

/// Gives an asset its content in one encoding, made of chunks that the canister has taken.
#[derive(Debug, PartialEq)]
pub struct SetAssetContentArguments {
    pub key: String,
    pub content_encoding: String,
    pub chunk_ids: Vec<Nat>,
    pub sha256: Option<Vec<u8>>,
}

/// Takes an asset's content in one encoding away.
#[derive(Debug, PartialEq)]
pub struct UnsetAssetContentArguments {
    pub key: String,
    pub content_encoding: String,
}

/// Deletes an asset.
#[derive(Debug, PartialEq)]
pub struct DeleteAssetArguments {
    pub key: String,
}

/// Deletes every asset.
#[derive(Debug, PartialEq)]
pub struct ClearArguments {}

/// One operation of a batch.
#[derive(Debug, PartialEq)]
pub enum BatchOperationKind {
    CreateAsset(CreateAssetArguments),
    SetAssetContent(SetAssetContentArguments),
    UnsetAssetContent(UnsetAssetContentArguments),
    DeleteAsset(DeleteAssetArguments),
    Clear(ClearArguments),
}

/// What a [`BatchOperationKind`] says.
pub enum OperationView {
    CreateAsset { key: Seq<char>, content_type: Seq<char> },
    SetAssetContent {
        key: Seq<char>,
        content_encoding: Seq<char>,
        chunk_ids: Seq<Nat>,
        sha256: Option<Seq<u8>>,
    },
    UnsetAssetContent { key: Seq<char>, content_encoding: Seq<char> },
    DeleteAsset { key: Seq<char> },
    Clear,
}

impl View for BatchOperationKind {
    type V = OperationView;

    open spec fn view(&self) -> OperationView {
        match self {
            BatchOperationKind::CreateAsset(args) => OperationView::CreateAsset {
                key: args.key@,
                content_type: args.content_type@,
            },
            BatchOperationKind::SetAssetContent(args) => OperationView::SetAssetContent {
                key: args.key@,
                content_encoding: args.content_encoding@,
                chunk_ids: args.chunk_ids@,
                sha256: option_view(args.sha256),
            },
            BatchOperationKind::UnsetAssetContent(args) => OperationView::UnsetAssetContent {
                key: args.key@,
                content_encoding: args.content_encoding@,
            },
            BatchOperationKind::DeleteAsset(args) => OperationView::DeleteAsset { key: args.key@ },
            BatchOperationKind::Clear(_) => OperationView::Clear,
        }
    }
}

/// The methods of a canister go by these names.
pub proof fn lemma_method_names()
    ensures
        CREATE_BATCH@ == "create_batch"@,
        CREATE_CHUNK@ == "create_chunk"@,
        COMMIT_BATCH@ == "commit_batch"@,
        LIST@ == "list"@,
{
}

/// What an operation says is what its arguments say.
pub proof fn lemma_operation_view(operation: BatchOperationKind)
    ensures
        match operation {
            BatchOperationKind::CreateAsset(args) => operation@ == (OperationView::CreateAsset {
                key: args.key@,
                content_type: args.content_type@,
            }),
            BatchOperationKind::SetAssetContent(args) => operation@ matches
                OperationView::SetAssetContent { key, content_encoding, chunk_ids, sha256 } && key
                == args.key@ && content_encoding == args.content_encoding@ && chunk_ids
                == args.chunk_ids@ && (sha256 is Some <==> args.sha256 is Some) && (sha256 is Some
                ==> sha256->0 == args.sha256->0@),
            BatchOperationKind::UnsetAssetContent(args) => operation@ == (
            OperationView::UnsetAssetContent {
                key: args.key@,
                content_encoding: args.content_encoding@,
            }),
            BatchOperationKind::DeleteAsset(args) => operation@ == (OperationView::DeleteAsset {
                key: args.key@,
            }),
            BatchOperationKind::Clear(_) => operation@ == OperationView::Clear,
        },
{
}

/// What details say is what their fields say.
pub proof fn lemma_details_view(details: AssetDetails, encoding: AssetEncodingDetails)
    ensures
        details@.key == details.key@,
        details@.content_type == details.content_type@,
        details@.encodings.len() == details.encodings@.len(),
        forall|i: int|
            0 <= i < details.encodings@.len() ==> #[trigger] details@.encodings[i]
                == details.encodings@[i]@,
        encoding@.content_encoding == encoding.content_encoding@,
        encoding@.sha256 is Some <==> encoding.sha256 is Some,
        encoding@.sha256 is Some ==> encoding@.sha256->0 == encoding.sha256->0@,
{
}

/// The argument of [`COMMIT_BATCH`].
#[derive(Debug)]
pub struct CommitBatchArguments<'a> {
    pub batch_id: &'a Nat,
    pub operations: &'a Vec<BatchOperationKind>,
}

} // verus!
