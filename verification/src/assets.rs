//! Uploaded assets, and the operations that put them in place of what a canister holds.

use crate::digest::{sha256, sha256_digest};
use crate::keyed_list::{
    collected, distinct_keys, has_key, lemma_collected, lemma_collected_entries, upsert, KeyedList,
};
use crate::locations::{AssetLocation, LocationView};
use crate::protocol::{
    AssetDetails, BatchOperationKind, CreateAssetArguments, DeleteAssetArguments, DetailsView,
    OperationView, SetAssetContentArguments,
};
use crate::views::views;
use candid::Nat;
use vstd::prelude::*;

verus! {

/// The name of the encoding in which content is what the file holds.
pub const IDENTITY: &'static str = "identity";

/// Content that a canister has taken in chunks.
#[derive(Debug)]
pub struct ChunkedAssetEncoding {
    pub chunk_ids: Vec<Nat>,
    pub sha256: Vec<u8>,
}

/// What a [`ChunkedAssetEncoding`] says.
pub struct EncodingView {
    pub chunk_ids: Seq<Nat>,
    pub sha256: Seq<u8>,
}

impl View for ChunkedAssetEncoding {
    type V = EncodingView;

    open spec fn view(&self) -> EncodingView {
        EncodingView { chunk_ids: self.chunk_ids@, sha256: self.sha256@ }
    }
}

/// A file whose content a canister has taken in chunks, in each of its encodings.
pub struct ChunkedAsset {
    pub asset_location: AssetLocation,
    pub media_type: String,
    pub encodings: KeyedList<ChunkedAssetEncoding>,
}

/// What a [`ChunkedAsset`] says.
pub struct AssetView {
    pub location: LocationView,
    pub media_type: Seq<char>,
    pub encodings: Seq<(Seq<char>, EncodingView)>,
}

impl View for ChunkedAsset {
    type V = AssetView;

    open spec fn view(&self) -> AssetView {
        AssetView {
            location: self.asset_location@,
            media_type: self.media_type@,
            encodings: self.encodings@,
        }
    }
}

/// An asset that was uploaded from `location`: `content`, of type `media_type`, in chunks that got
/// the names `chunk_ids`. Its one encoding is the content itself.
pub open spec fn uploaded_asset(
    location: LocationView,
    media_type: Seq<char>,
    content: Seq<u8>,
    chunk_ids: Seq<Nat>,
) -> AssetView {
    AssetView {
        location,
        media_type,
        encodings: seq![
            (IDENTITY@, EncodingView { chunk_ids, sha256: sha256_digest(content) }),
        ],
    }
}

/// The details of the assets that a canister holds, by key. If a key is listed twice, the later
/// details count.
pub open spec fn details_by_key(details: Seq<DetailsView>) -> Seq<(Seq<char>, DetailsView)> {
    collected(details.map_values(|item: DetailsView| (item.key, item)))
}

/// Uploaded assets, by key. If a key occurs twice, the later asset counts.
pub open spec fn assets_by_key(assets: Seq<AssetView>) -> Seq<(Seq<char>, AssetView)> {
    collected(assets.map_values(|asset: AssetView| (asset.location.key, asset)))
}

/// The operation that deletes the asset under `key`.
pub open spec fn deletion(key: Seq<char>) -> OperationView {
    OperationView::DeleteAsset { key }
}

/// The operation that gives the asset under `key` one encoding.
pub open spec fn content_setting(
    key: Seq<char>,
    encoding: (Seq<char>, EncodingView),
) -> OperationView {
    OperationView::SetAssetContent {
        key,
        content_encoding: encoding.0,
        chunk_ids: encoding.1.chunk_ids,
        sha256: Some(encoding.1.sha256),
    }
}

/// The operations that put `asset` under `key`: whatever is there goes, the asset is created, and
/// it is given each of its encodings.
pub open spec fn replacement(key: Seq<char>, asset: AssetView) -> Seq<OperationView> {
    seq![
        deletion(key),
        OperationView::CreateAsset { key, content_type: asset.media_type },
    ] + asset.encodings.map_values(
        |encoding: (Seq<char>, EncodingView)| content_setting(key, encoding),
    )
}

/// The operations that delete what is held under keys that no uploaded asset has.
pub open spec fn obsolete_deletions(
    current: Seq<(Seq<char>, DetailsView)>,
    uploaded: Seq<(Seq<char>, AssetView)>,
) -> Seq<OperationView> {
    current.filter(|item: (Seq<char>, DetailsView)| !has_key(uploaded, item.0)).map_values(
        |item: (Seq<char>, DetailsView)| deletion(item.0),
    )
}

/// The operations that put each uploaded asset under its key.
pub open spec fn replacements(uploaded: Seq<(Seq<char>, AssetView)>) -> Seq<OperationView> {
    uploaded.map_values(
        |item: (Seq<char>, AssetView)| replacement(item.0, item.1),
    ).flatten()
}

/// The operations that put the uploaded assets in place of the current ones.
pub open spec fn batch_operations(
    current: Seq<(Seq<char>, DetailsView)>,
    assets: Seq<AssetView>,
) -> Seq<OperationView> {
    obsolete_deletions(current, assets_by_key(assets)) + replacements(assets_by_key(assets))
}

/// The details of the assets that a canister holds, by key.
pub fn list_by_key(details: Vec<AssetDetails>) -> (current: KeyedList<AssetDetails>)
    ensures
        current@ == details_by_key(views(details@)),
        distinct_keys(current@),
        forall|e: int, f: int|
            0 <= e < f < current@.len() ==> (#[trigger] current@[e]).0 != (
            #[trigger] current@[f]).0,
        forall|key: Seq<char>|
            {
                &&& #[trigger] has_key(current@, key) <==> exists|e: int|
                    0 <= e < current@.len() && (#[trigger] current@[e]).0 == key
                &&& has_key(current@, key) <==> exists|i: int|
                    0 <= i < details@.len() && (#[trigger] details@[i]).key@ == key
            },
        forall|e: int|
            0 <= e < current@.len() ==> exists|i: int|
                0 <= i < details@.len() && (#[trigger] details@[i]).key@ == (
                #[trigger] current@[e]).0 && details@[i]@ == current@[e].1 && (forall|j: int|
                    i < j < details@.len() ==> (#[trigger] details@[j]).key@ != current@[e].0),
{
    let ghost all = details@;
    let ghost pairs = views(all).map_values(|item: DetailsView| (item.key, item));
    let mut current: KeyedList<AssetDetails> = KeyedList::new();
    assert(pairs.take(0) =~= Seq::empty());
    for item in iter: details.into_iter()
        invariant
            iter.seq() == all,
            pairs == views(all).map_values(|item: DetailsView| (item.key, item)),
            current@ == collected(pairs.take(iter.index() as int)),
    {
        proof {
            assert(pairs.take(iter.index() + 1).drop_last() =~= pairs.take(iter.index() as int));
        }
        let key = item.key.clone();
        current = current.insert(key, item);
    }
    proof {
        assert(pairs.take(all.len() as int) =~= pairs);
        lemma_collected(pairs);
        lemma_collected_entries(pairs);
        assert forall|i: int| 0 <= i < all.len() implies #[trigger] pairs[i] == (
            all[i].key@,
            all[i]@,
        ) by {}
        assert forall|key: Seq<char>| #[trigger] has_key(current@, key) <==> exists|i: int|
            0 <= i < all.len() && (#[trigger] all[i]).key@ == key by {
            if exists|i: int| 0 <= i < all.len() && (#[trigger] all[i]).key@ == key {
                let i = choose|i: int| 0 <= i < all.len() && (#[trigger] all[i]).key@ == key;
                assert(pairs[i].0 == key);
                assert(has_key(collected(pairs), key));
            }
            if has_key(current@, key) {
                assert(has_key(collected(pairs), key));
                let i = choose|i: int| 0 <= i < pairs.len() && (#[trigger] pairs[i]).0 == key;
                assert(all[i].key@ == key);
            }
        }
        assert forall|e: int| 0 <= e < current@.len() implies exists|i: int|
            0 <= i < all.len() && (#[trigger] all[i]).key@ == (#[trigger] current@[e]).0 && all[i]@
                == current@[e].1 && (forall|j: int|
                i < j < all.len() ==> (#[trigger] all[j]).key@ != current@[e].0) by {
            assert(collected(pairs)[e] == current@[e]);
            let i = choose|i: int|
                0 <= i < pairs.len() && #[trigger] pairs[i] == collected(pairs)[e] && (forall|
                    j: int,
                | i < j < pairs.len() ==> (#[trigger] pairs[j]).0 != pairs[i].0);
            assert(all[i].key@ == current@[e].0);
            assert forall|j: int| i < j < all.len() implies (#[trigger] all[j]).key@
                != current@[e].0 by {
                assert(pairs[j].0 != pairs[i].0);
            }
        }
    }
    current
}

/// Uploaded assets, by key.
fn index_by_key(assets: Vec<ChunkedAsset>) -> (uploaded: KeyedList<ChunkedAsset>)
    ensures
        uploaded@ == assets_by_key(views(assets@)),
{
    let ghost all = assets@;
    let ghost pairs = views(all).map_values(|asset: AssetView| (asset.location.key, asset));
    let mut uploaded: KeyedList<ChunkedAsset> = KeyedList::new();
    assert(pairs.take(0) =~= Seq::empty());
    for asset in iter: assets.into_iter()
        invariant
            iter.seq() == all,
            pairs == views(all).map_values(|asset: AssetView| (asset.location.key, asset)),
            uploaded@ == collected(pairs.take(iter.index() as int)),
    {
        proof {
            assert(pairs.take(iter.index() + 1).drop_last() =~= pairs.take(iter.index() as int));
        }
        let key = asset.asset_location.key.clone();
        uploaded = uploaded.insert(key, asset);
    }
    proof {
        assert(pairs.take(all.len() as int) =~= pairs);
    }
    uploaded
}

fn delete_asset(key: &String) -> (operation: BatchOperationKind)
    ensures
        operation@ == deletion(key@),
{
    BatchOperationKind::DeleteAsset(DeleteAssetArguments { key: key.clone() })
}

fn replace_asset(
    key: &String,
    asset: &ChunkedAsset,
    earlier: Vec<BatchOperationKind>,
) -> (operations: Vec<BatchOperationKind>)
    ensures
        views(operations@) == views(earlier@) + replacement(key@, asset@),
{
    let ghost before = views(earlier@);
    let ghost settings = asset@.encodings.map_values(
        |encoding: (Seq<char>, EncodingView)| content_setting(key@, encoding),
    );
    let ghost head = seq![
        deletion(key@),
        OperationView::CreateAsset { key: key@, content_type: asset@.media_type },
    ];
    let mut operations = earlier;
    operations.push(delete_asset(key));
    operations.push(
        BatchOperationKind::CreateAsset(
            CreateAssetArguments { key: key.clone(), content_type: asset.media_type.clone() },
        ),
    );
    assert(views(operations@) =~= before + head + settings.take(0));
    let n: usize = asset.encodings.len();
    let mut i: usize = 0;
    while i < n
        invariant
            n == asset@.encodings.len(),
            i <= n,
            settings == asset@.encodings.map_values(
                |encoding: (Seq<char>, EncodingView)| content_setting(key@, encoding),
            ),
            views(operations@) == before + head + settings.take(i as int),
        decreases n - i,
    {
        let ghost so_far = views(operations@);
        let (content_encoding, v) = asset.encodings.entry(i);
        let chunk_ids = v.chunk_ids.clone();
        assert(chunk_ids@ =~= v.chunk_ids@);
        let sha256 = v.sha256.clone();
        assert(sha256@ =~= v.sha256@);
        operations.push(
            BatchOperationKind::SetAssetContent(
                SetAssetContentArguments {
                    key: key.clone(),
                    content_encoding: content_encoding.clone(),
                    chunk_ids,
                    sha256: Some(sha256),
                },
            ),
        );
        proof {
            assert(views(operations@) =~= so_far.push(settings[i as int]));
            assert(settings.take(i + 1) =~= settings.take(i as int).push(settings[i as int]));
            assert(so_far.push(settings[i as int]) =~= before + head + settings.take(i + 1));
        }
        i += 1;
    }
    assert(settings.take(n as int) =~= settings);
    assert(before + head + settings =~= before + (head + settings));
    operations
}

/// The operations that put the uploaded assets in place of the current ones: what is held under no
/// uploaded key is deleted, then each uploaded asset replaces whatever is held under its key. Keys
/// are taken in the order in which they first came.
pub fn commit_operations(
    current: &KeyedList<AssetDetails>,
    chunked_assets: Vec<ChunkedAsset>,
) -> (operations: Vec<BatchOperationKind>)
    ensures
        views(operations@) == batch_operations(current@, views(chunked_assets@)),
{
    let uploaded = index_by_key(chunked_assets);
    let ghost obsolete = |item: (Seq<char>, DetailsView)| !has_key(uploaded@, item.0);
    let ghost to_deletion = |item: (Seq<char>, DetailsView)| deletion(item.0);
    let mut operations: Vec<BatchOperationKind> = Vec::new();
    let n: usize = current.len();
    let mut i: usize = 0;
    proof {
        reveal(Seq::filter);
        assert(views(operations@) =~= current@.take(0).filter(obsolete).map_values(to_deletion));
    }
    while i < n
        invariant
            n == current@.len(),
            i <= n,
            obsolete == (|item: (Seq<char>, DetailsView)| !has_key(uploaded@, item.0)),
            to_deletion == (|item: (Seq<char>, DetailsView)| deletion(item.0)),
            views(operations@) == current@.take(i as int).filter(obsolete).map_values(to_deletion),
        decreases n - i,
    {
        let ghost before = views(operations@);
        let (key, _details) = current.entry(i);
        proof {
            assert(current@.take(i + 1) =~= current@.take(i as int).push(current@[i as int]));
            current@.take(i as int).lemma_filter_push(current@[i as int], obsolete);
        }
        if !uploaded.contains_key(key.as_str()) {
            operations.push(delete_asset(key));
            assert(views(operations@) =~= before.push(deletion(key@)));
        }
        assert(views(operations@) =~= current@.take(i + 1).filter(obsolete).map_values(
            to_deletion,
        ));
        i += 1;
    }
    assert(current@.take(n as int) =~= current@);
    let ghost deletions = obsolete_deletions(current@, uploaded@);
    let ghost parts = uploaded@.map_values(
        |item: (Seq<char>, AssetView)| replacement(item.0, item.1),
    );
    let m: usize = uploaded.len();
    let mut j: usize = 0;
    proof {
        assert(parts.take(0) =~= Seq::empty());
        assert(parts.take(0).flatten() =~= Seq::empty());
        assert(deletions + parts.take(0).flatten() =~= deletions);
    }
    while j < m
        invariant
            m == uploaded@.len(),
            j <= m,
            parts == uploaded@.map_values(
                |item: (Seq<char>, AssetView)| replacement(item.0, item.1),
            ),
            views(operations@) == deletions + parts.take(j as int).flatten(),
        decreases m - j,
    {
        let (key, chunked_asset) = uploaded.entry(j);
        operations = replace_asset(key, chunked_asset, operations);
        proof {
            assert(parts.take(j + 1) =~= parts.take(j as int).push(parts[j as int]));
            parts.take(j as int).lemma_flatten_push(parts[j as int]);
            assert(deletions + parts.take(j as int).flatten() + parts[j as int] =~= deletions + (
            parts.take(j as int).flatten() + parts[j as int]));
        }
        j += 1;
    }
    assert(parts.take(m as int) =~= parts);
    operations
}

/// Puts an encoding among those of an asset, as the content itself.
pub fn add_identity_encoding(
    encodings: KeyedList<ChunkedAssetEncoding>,
    chunked_asset_encoding: ChunkedAssetEncoding,
) -> (extended: KeyedList<ChunkedAssetEncoding>)
    ensures
        extended@ == upsert(encodings@, IDENTITY@, chunked_asset_encoding@),
        exists|i: int|
            0 <= i < extended@.len() && #[trigger] extended@[i] == (
                "identity"@,
                chunked_asset_encoding@,
            ),
        forall|i: int|
            0 <= i < encodings@.len() && (#[trigger] encodings@[i]).0 != "identity"@
                ==> extended@[i] == encodings@[i],
        forall|i: int|
            0 <= i < extended@.len() && (#[trigger] extended@[i]).0 != "identity"@ ==> i
                < encodings@.len() && extended@[i] == encodings@[i],
        forall|i: int, j: int|
            0 <= i < j < extended@.len() ==> (#[trigger] extended@[i]).0 != (
            #[trigger] extended@[j]).0,
{
    let extended = encodings.insert(IDENTITY.to_owned(), chunked_asset_encoding);
    proof {
        if has_key(encodings@, IDENTITY@) {
            let i = choose|i: int|
                0 <= i < encodings@.len() && (#[trigger] encodings@[i]).0 == IDENTITY@;
            assert(extended@[i] == (IDENTITY@, chunked_asset_encoding@));
        } else {
            assert(extended@[encodings@.len() as int] == (IDENTITY@, chunked_asset_encoding@));
        }
    }
    extended
}

/// The encoding that `content` makes once a canister has taken its chunks under `chunk_ids`.
pub fn make_chunked_asset_encoding(
    content: &[u8],
    chunk_ids: Vec<Nat>,
) -> (encoding: ChunkedAssetEncoding)
    ensures
        encoding@ == (EncodingView { chunk_ids: chunk_ids@, sha256: sha256_digest(content@) }),
        encoding@.sha256.len() == 32,
        encoding.chunk_ids@ == chunk_ids@,
        encoding.sha256@ == sha256_digest(content@),
{
    let sha256 = sha256(content);
    ChunkedAssetEncoding { chunk_ids, sha256 }
}

/// The asset that a file makes once a canister has taken its content in chunks.
pub fn make_chunked_asset(
    asset_location: AssetLocation,
    media_type: String,
    content: &[u8],
    chunk_ids: Vec<Nat>,
) -> (asset: ChunkedAsset)
    ensures
        asset@ == uploaded_asset(asset_location@, media_type@, content@, chunk_ids@),
        asset@.encodings[0].1.sha256.len() == 32,
        asset.asset_location == asset_location,
        asset.media_type@ == media_type@,
        asset.encodings@.len() == 1,
        asset.encodings@[0].0 == "identity"@,
        asset.encodings@[0].1.chunk_ids == chunk_ids@,
        asset.encodings@[0].1.sha256 == sha256_digest(content@),
{
    let encoding = make_chunked_asset_encoding(content, chunk_ids);
    let encodings = add_identity_encoding(KeyedList::new(), encoding);
    let asset = ChunkedAsset { asset_location, media_type, encodings };
    assert(asset@.encodings =~= uploaded_asset(
        asset_location@,
        media_type@,
        content@,
        chunk_ids@,
    ).encodings);
    asset
}

/// What an encoding or an asset says is what its fields say.
pub proof fn lemma_asset_view(asset: ChunkedAsset, encoding: ChunkedAssetEncoding)
    ensures
        encoding@.chunk_ids == encoding.chunk_ids@,
        encoding@.sha256 == encoding.sha256@,
        asset@.location == asset.asset_location@,
        asset@.media_type == asset.media_type@,
        asset@.encodings == asset.encodings@,
{
}

/// An uploaded asset has one encoding, the identity, with the digest of the content and the chunks
/// that the content was sent in.
pub proof fn lemma_uploaded_asset(
    location: LocationView,
    media_type: Seq<char>,
    content: Seq<u8>,
    chunk_ids: Seq<Nat>,
)
    ensures
        ({
            let asset = uploaded_asset(location, media_type, content, chunk_ids);
            &&& asset.location == location
            &&& asset.media_type == media_type
            &&& asset.encodings.len() == 1
            &&& asset.encodings[0].0 == "identity"@
            &&& asset.encodings[0].1.chunk_ids == chunk_ids
            &&& asset.encodings[0].1.sha256 == sha256_digest(content)
        }),
{
}

} // verus!
