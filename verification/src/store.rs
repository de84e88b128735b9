//! What the operations of a batch do to the assets that a canister holds.
//!
//! A canister is not part of this crate: [`applied`] is a model of one. What is stated here and in
//! [`crate::history`] of the assets that a canister holds is stated of a canister that acts as the
//! model does.

use crate::assets::{
    assets_by_key, batch_operations, content_setting, deletion, details_by_key, obsolete_deletions,
    replacement, replacements, AssetView, EncodingView,
};
use crate::keyed_list::{as_map, has_key, lemma_as_map, lemma_collected};
use crate::protocol::{DetailsView, OperationView};
use candid::Nat;
use vstd::prelude::*;

verus! {

/// Content that a canister holds in one encoding.
pub struct StoredEncoding {
    pub chunk_ids: Seq<Nat>,
    pub sha256: Option<Seq<u8>>,
}

/// An asset that a canister holds.
pub struct StoredAsset {
    pub content_type: Seq<char>,
    pub encodings: Map<Seq<char>, StoredEncoding>,
}

/// A model of an asset canister: the assets by key that it holds after `operation`, if it held
/// `store`, or nothing if it refuses. It is taken to be strict: it creates no asset that is there,
/// and changes the content of none that is not. Nothing in this crate shows how a canister acts; the
/// laws on what a canister holds rest on this model.
pub open spec fn applied(store: Map<Seq<char>, StoredAsset>, operation: OperationView) -> Option<
    Map<Seq<char>, StoredAsset>,
> {
    match operation {
        OperationView::CreateAsset { key, content_type } => if store.contains_key(key) {
            None
        } else {
            Some(store.insert(key, StoredAsset { content_type, encodings: Map::empty() }))
        },
        OperationView::SetAssetContent {
            key,
            content_encoding,
            chunk_ids,
            sha256,
        } => if store.contains_key(key) {
            let content = StoredEncoding { chunk_ids, sha256 };
            Some(
                store.insert(
                    key,
                    StoredAsset {
                        content_type: store[key].content_type,
                        encodings: store[key].encodings.insert(content_encoding, content),
                    },
                ),
            )
        } else {
            None
        },
        OperationView::UnsetAssetContent { key, content_encoding } => if store.contains_key(key) {
            Some(
                store.insert(
                    key,
                    StoredAsset {
                        content_type: store[key].content_type,
                        encodings: store[key].encodings.remove(content_encoding),
                    },
                ),
            )
        } else {
            None
        },
        OperationView::DeleteAsset { key } => Some(store.remove(key)),
        OperationView::Clear => Some(Map::empty()),
    }
}

/// The assets by key that a canister holds after `operations`, in order, if it held `store`, or
/// nothing if it refuses one of them.
pub open spec fn applied_all(
    store: Map<Seq<char>, StoredAsset>,
    operations: Seq<OperationView>,
) -> Option<Map<Seq<char>, StoredAsset>>
    decreases operations.len(),
{
    if operations.len() == 0 {
        Some(store)
    } else {
        match applied_all(store, operations.drop_last()) {
            Some(before) => applied(before, operations.last()),
            None => None,
        }
    }
}

/// The stored form of an encoding of an uploaded asset.
pub open spec fn stored_encoding(encoding: EncodingView) -> StoredEncoding {
    StoredEncoding { chunk_ids: encoding.chunk_ids, sha256: Some(encoding.sha256) }
}

/// The stored form of an uploaded asset.
pub open spec fn stored(asset: AssetView) -> StoredAsset {
    StoredAsset {
        content_type: asset.media_type,
        encodings: as_map(
            asset.encodings.map_values(
                |item: (Seq<char>, EncodingView)| (item.0, stored_encoding(item.1)),
            ),
        ),
    }
}

/// Uploaded assets in their stored form, by key; of two assets with one key the later counts.
pub open spec fn stored_assets(assets: Seq<AssetView>) -> Map<Seq<char>, StoredAsset> {
    as_map(assets.map_values(|asset: AssetView| (asset.location.key, stored(asset))))
}

/// The keys under which a list has entries.
pub open spec fn keys<T>(s: Seq<(Seq<char>, T)>) -> Set<Seq<char>> {
    Set::new(|key: Seq<char>| has_key(s, key))
}

/// The keys that a canister lists.
pub open spec fn listed_keys(details: Seq<DetailsView>) -> Set<Seq<char>> {
    Set::new(
        |key: Seq<char>| exists|i: int| 0 <= i < details.len() && (#[trigger] details[i]).key == key,
    )
}

/// The keys of the details by key are the keys that are listed.
pub proof fn lemma_listed_keys(details: Seq<DetailsView>, key: Seq<char>)
    ensures
        has_key(details_by_key(details), key) <==> listed_keys(details).contains(key),
{
    let listed = details.map_values(|item: DetailsView| (item.key, item));
    lemma_collected(listed);
    assert(has_key(details_by_key(details), key) <==> has_key(listed, key));
    if has_key(listed, key) {
        let i = choose|i: int| 0 <= i < listed.len() && (#[trigger] listed[i]).0 == key;
        assert(details[i].key == key);
    }
    if listed_keys(details).contains(key) {
        let i = choose|i: int| 0 <= i < details.len() && (#[trigger] details[i]).key == key;
        assert(listed[i].0 == key);
    }
}

/// Operations are carried out one after the other, however they are grouped.
pub proof fn lemma_applied_all_concat(
    store: Map<Seq<char>, StoredAsset>,
    first: Seq<OperationView>,
    second: Seq<OperationView>,
)
    ensures
        applied_all(store, first + second) == match applied_all(store, first) {
            Some(between) => applied_all(between, second),
            None => None,
        },
    decreases second.len(),
{
    if second.len() == 0 {
        assert(first + second =~= first);
    } else {
        assert((first + second).drop_last() =~= first + second.drop_last());
        lemma_applied_all_concat(store, first, second.drop_last());
    }
}

proof fn lemma_deletions(
    store: Map<Seq<char>, StoredAsset>,
    items: Seq<(Seq<char>, DetailsView)>,
)
    ensures
        applied_all(
            store,
            items.map_values(|item: (Seq<char>, DetailsView)| deletion(item.0)),
        ) == Some(store.remove_keys(keys(items))),
    decreases items.len(),
{
    let operations = items.map_values(|item: (Seq<char>, DetailsView)| deletion(item.0));
    if items.len() == 0 {
        assert(store.remove_keys(keys(items)) =~= store);
    } else {
        let front = items.drop_last();
        lemma_deletions(store, front);
        assert(operations.drop_last() =~= front.map_values(
            |item: (Seq<char>, DetailsView)| deletion(item.0),
        ));
        assert forall|key: Seq<char>| has_key(items, key) <==> #[trigger] has_key(front, key)
            || key == items.last().0 by {
            lemma_has_key_split(items, key);
        }
        assert(store.remove_keys(keys(front)).remove(items.last().0) =~= store.remove_keys(
            keys(items),
        ));
    }
}

proof fn lemma_has_key_split<T>(items: Seq<(Seq<char>, T)>, key: Seq<char>)
    requires
        items.len() > 0,
    ensures
        has_key(items, key) <==> has_key(items.drop_last(), key) || key == items.last().0,
{
    let front = items.drop_last();
    if has_key(front, key) {
        let i = choose|i: int| 0 <= i < front.len() && (#[trigger] front[i]).0 == key;
        assert(items[i].0 == key);
    }
    if key == items.last().0 {
        assert(items[items.len() - 1].0 == key);
    }
    if has_key(items, key) && key != items.last().0 {
        let i = choose|i: int| 0 <= i < items.len() && (#[trigger] items[i]).0 == key;
        assert(front[i].0 == key);
    }
}

proof fn lemma_settings(
    store: Map<Seq<char>, StoredAsset>,
    key: Seq<char>,
    encodings: Seq<(Seq<char>, EncodingView)>,
)
    requires
        store.contains_key(key),
        store[key].encodings == Map::<Seq<char>, StoredEncoding>::empty(),
    ensures
        applied_all(
            store,
            encodings.map_values(
                |encoding: (Seq<char>, EncodingView)| content_setting(key, encoding),
            ),
        ) == Some(
            store.insert(
                key,
                StoredAsset {
                    content_type: store[key].content_type,
                    encodings: as_map(
                        encodings.map_values(
                            |item: (Seq<char>, EncodingView)| (item.0, stored_encoding(item.1)),
                        ),
                    ),
                },
            ),
        ),
    decreases encodings.len(),
{
    let operations = encodings.map_values(
        |encoding: (Seq<char>, EncodingView)| content_setting(key, encoding),
    );
    let pairs = encodings.map_values(
        |item: (Seq<char>, EncodingView)| (item.0, stored_encoding(item.1)),
    );
    if encodings.len() == 0 {
        assert(store.insert(key, store[key]) =~= store);
    } else {
        let front = encodings.drop_last();
        lemma_settings(store, key, front);
        assert(operations.drop_last() =~= front.map_values(
            |encoding: (Seq<char>, EncodingView)| content_setting(key, encoding),
        ));
        assert(pairs.drop_last() =~= front.map_values(
            |item: (Seq<char>, EncodingView)| (item.0, stored_encoding(item.1)),
        ));
        let before = applied_all(store, operations.drop_last())->0;
        let asset = StoredAsset {
            content_type: store[key].content_type,
            encodings: as_map(pairs),
        };
        assert(before.insert(key, asset) =~= store.insert(key, asset));
    }
}

/// Replacing an asset is never refused, and leaves exactly the new asset under the key, whatever
/// was there.
pub proof fn lemma_replacement(
    store: Map<Seq<char>, StoredAsset>,
    key: Seq<char>,
    asset: AssetView,
)
    ensures
        applied_all(store, replacement(key, asset)) == Some(store.insert(key, stored(asset))),
{
    let head = seq![
        deletion(key),
        OperationView::CreateAsset { key, content_type: asset.media_type },
    ];
    let settings = asset.encodings.map_values(
        |encoding: (Seq<char>, EncodingView)| content_setting(key, encoding),
    );
    let created = store.remove(key).insert(
        key,
        StoredAsset { content_type: asset.media_type, encodings: Map::empty() },
    );
    assert(applied_all(store, head) == Some(created)) by {
        assert(head.drop_last() =~= seq![deletion(key)]);
        assert(head.drop_last().drop_last() =~= Seq::empty());
        assert(applied_all(store, head.drop_last().drop_last()) == Some(store));
        assert(applied_all(store, head.drop_last()) == Some(store.remove(key)));
    }
    lemma_settings(created, key, asset.encodings);
    lemma_applied_all_concat(store, head, settings);
    assert(created.insert(key, stored(asset)) =~= store.insert(key, stored(asset)));
}

proof fn lemma_replacements(
    store: Map<Seq<char>, StoredAsset>,
    uploaded: Seq<(Seq<char>, AssetView)>,
)
    ensures
        applied_all(store, replacements(uploaded)) == Some(
            store.union_prefer_right(as_map(uploaded).map_values(|asset: AssetView| stored(asset))),
        ),
    decreases uploaded.len(),
{
    let to_stored = |asset: AssetView| stored(asset);
    let parts = uploaded.map_values(
        |item: (Seq<char>, AssetView)| replacement(item.0, item.1),
    );
    if uploaded.len() == 0 {
        assert(parts.flatten() =~= Seq::empty());
        assert(store.union_prefer_right(as_map(uploaded).map_values(to_stored)) =~= store);
    } else {
        let front = uploaded.drop_last();
        let (key, asset) = uploaded.last();
        let earlier = front.map_values(
            |item: (Seq<char>, AssetView)| replacement(item.0, item.1),
        );
        assert(parts =~= earlier.push(replacement(key, asset)));
        earlier.lemma_flatten_push(replacement(key, asset));
        lemma_replacements(store, front);
        let between = store.union_prefer_right(as_map(front).map_values(to_stored));
        lemma_applied_all_concat(store, replacements(front), replacement(key, asset));
        lemma_replacement(between, key, asset);
        assert(between.insert(key, stored(asset)) =~= store.union_prefer_right(
            as_map(uploaded).map_values(to_stored),
        ));
    }
}

proof fn lemma_as_map_of_views(
    items: Seq<(Seq<char>, AssetView)>,
    pairs: Seq<(Seq<char>, StoredAsset)>,
)
    requires
        pairs.len() == items.len(),
        forall|i: int|
            0 <= i < items.len() ==> #[trigger] pairs[i] == (items[i].0, stored(items[i].1)),
    ensures
        as_map(items).map_values(|asset: AssetView| stored(asset)) == as_map(pairs),
    decreases items.len(),
{
    let to_stored = |asset: AssetView| stored(asset);
    if items.len() == 0 {
        assert(as_map(items).map_values(to_stored) =~= as_map(pairs));
    } else {
        lemma_as_map_of_views(items.drop_last(), pairs.drop_last());
        assert(pairs[items.len() - 1] == (items.last().0, stored(items.last().1)));
        assert(as_map(items).map_values(to_stored) =~= as_map(pairs));
    }
}

/// No operation of a batch is refused, whatever the canister holds. After the batch it holds the
/// uploaded assets, each under its key with its type and encodings, none of the others that it
/// listed, and, unchanged, what it held under keys that were neither listed nor uploaded.
pub proof fn lemma_batch(
    store: Map<Seq<char>, StoredAsset>,
    details: Seq<DetailsView>,
    assets: Seq<AssetView>,
)
    ensures
        applied_all(store, batch_operations(details_by_key(details), assets)) == Some(
            store.remove_keys(listed_keys(details)).union_prefer_right(stored_assets(assets)),
        ),
{
    let current = details_by_key(details);
    let uploaded = assets_by_key(assets);
    let obsolete = |item: (Seq<char>, DetailsView)| !has_key(uploaded, item.0);
    let gone = current.filter(obsolete);
    let pairs = assets.map_values(|asset: AssetView| (asset.location.key, asset));
    let to_stored = |asset: AssetView| stored(asset);
    lemma_deletions(store, gone);
    let between = store.remove_keys(keys(gone));
    lemma_replacements(between, uploaded);
    lemma_applied_all_concat(
        store,
        obsolete_deletions(current, uploaded),
        replacements(uploaded),
    );
    lemma_collected(pairs);
    lemma_as_map_of_views(
        pairs,
        assets.map_values(|asset: AssetView| (asset.location.key, stored(asset))),
    );
    assert(as_map(uploaded).map_values(to_stored) == stored_assets(assets));
    lemma_as_map(uploaded);
    assert forall|key: Seq<char>| #[trigger] has_key(current, key) <==> listed_keys(
        details,
    ).contains(key) by {
        lemma_listed_keys(details, key);
    }
    assert forall|key: Seq<char>| #[trigger] has_key(gone, key) <==> has_key(current, key)
        && !has_key(uploaded, key) by {
        lemma_filter_keys(current, uploaded, key);
    }
    let left = between.union_prefer_right(stored_assets(assets));
    let right = store.remove_keys(listed_keys(details)).union_prefer_right(stored_assets(assets));
    assert forall|key: Seq<char>| #[trigger] stored_assets(assets).contains_key(key) <==> has_key(
        uploaded,
        key,
    ) by {
        assert(as_map(uploaded).contains_key(key) <==> has_key(uploaded, key));
    }
    assert forall|key: Seq<char>| #[trigger] left.contains_key(key) <==> right.contains_key(key) by {
        assert(stored_assets(assets).contains_key(key) <==> has_key(uploaded, key));
        assert(has_key(gone, key) <==> has_key(current, key) && !has_key(uploaded, key));
        assert(has_key(current, key) <==> listed_keys(details).contains(key));
        assert(keys(gone).contains(key) <==> has_key(gone, key));
    }
    assert(left =~= right);
}

proof fn lemma_filter_keys(
    current: Seq<(Seq<char>, DetailsView)>,
    uploaded: Seq<(Seq<char>, AssetView)>,
    key: Seq<char>,
)
    ensures
        has_key(
            current.filter(|item: (Seq<char>, DetailsView)| !has_key(uploaded, item.0)),
            key,
        ) <==> has_key(current, key) && !has_key(uploaded, key),
    decreases current.len(),
{
    reveal(Seq::filter);
    let obsolete = |item: (Seq<char>, DetailsView)| !has_key(uploaded, item.0);
    if current.len() > 0 {
        let front = current.drop_last();
        lemma_filter_keys(front, uploaded, key);
        lemma_has_key_split(current, key);
        if obsolete(current.last()) {
            lemma_has_key_split(current.filter(obsolete), key);
            assert(current.filter(obsolete).drop_last() =~= front.filter(obsolete));
        }
    }
}

/// If a canister holds nothing but what it listed, it holds exactly the uploaded assets after the
/// batch.
pub proof fn lemma_batch_leaves_uploaded_assets(
    store: Map<Seq<char>, StoredAsset>,
    details: Seq<DetailsView>,
    assets: Seq<AssetView>,
)
    requires
        store.dom().subset_of(listed_keys(details)),
    ensures
        applied_all(store, batch_operations(details_by_key(details), assets)) == Some(
            stored_assets(assets),
        ),
{
    lemma_batch(store, details, assets);
    assert(store.remove_keys(listed_keys(details)).union_prefer_right(stored_assets(assets))
        =~= stored_assets(assets)) by {
        assert forall|key: Seq<char>| !#[trigger] store.remove_keys(
            listed_keys(details),
        ).contains_key(key) by {
            if store.contains_key(key) {
                assert(store.dom().contains(key));
            }
        }
    }
}

/// A batch that is carried out once more changes nothing.
pub proof fn lemma_batch_again(
    store: Map<Seq<char>, StoredAsset>,
    details: Seq<DetailsView>,
    assets: Seq<AssetView>,
)
    ensures
        ({
            let operations = batch_operations(details_by_key(details), assets);
            applied_all(store, operations + operations) == applied_all(store, operations)
        }),
{
    let operations = batch_operations(details_by_key(details), assets);
    lemma_batch(store, details, assets);
    let after = applied_all(store, operations)->0;
    lemma_batch(after, details, assets);
    lemma_applied_all_concat(store, operations, operations);
    assert(after.remove_keys(listed_keys(details)).union_prefer_right(stored_assets(assets))
        =~= after);
}

} // verus!
