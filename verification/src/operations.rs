//! What a batch says of each key.

use crate::assets::{
    assets_by_key, batch_operations, content_setting, deletion, details_by_key,
    obsolete_deletions, replacement, replacements, AssetView,
};
use crate::keyed_list::{
    as_map, collected, distinct_keys, has_key, lemma_as_map, lemma_collected,
    lemma_collected_entries,
};
use crate::protocol::{DetailsView, OperationView};
use crate::store::{lemma_listed_keys, listed_keys};
use vstd::prelude::*;

verus! {

/// The operation has to do with the asset under `key`.
pub open spec fn concerns(operation: OperationView, key: Seq<char>) -> bool {
    match operation {
        OperationView::CreateAsset { key: of, content_type } => of == key,
        OperationView::SetAssetContent {
            key: of,
            content_encoding,
            chunk_ids,
            sha256,
        } => of == key,
        OperationView::UnsetAssetContent { key: of, content_encoding } => of == key,
        OperationView::DeleteAsset { key: of } => of == key,
        OperationView::Clear => true,
    }
}

/// The operations that have to do with the asset under `key`, in order.
pub open spec fn operations_on(operations: Seq<OperationView>, key: Seq<char>) -> Seq<
    OperationView,
> {
    operations.filter(|operation: OperationView| concerns(operation, key))
}

/// Uploaded assets as a map; of two assets with one key the later counts.
pub open spec fn asset_map(assets: Seq<AssetView>) -> Map<Seq<char>, AssetView> {
    as_map(assets.map_values(|asset: AssetView| (asset.location.key, asset)))
}

/// No two assets have the same key.
pub open spec fn distinct_asset_keys(assets: Seq<AssetView>) -> bool {
    forall|i: int, j: int|
        0 <= i < j < assets.len() ==> (#[trigger] assets[i]).location.key != (
        #[trigger] assets[j]).location.key
}

proof fn lemma_on_concat(first: Seq<OperationView>, second: Seq<OperationView>, key: Seq<char>)
    ensures
        operations_on(first + second, key) == operations_on(first, key) + operations_on(
            second,
            key,
        ),
    decreases second.len(),
{
    reveal(Seq::filter);
    if second.len() == 0 {
        assert(first + second =~= first);
        assert(operations_on(first, key) + operations_on(second, key) =~= operations_on(
            first,
            key,
        ));
    } else {
        assert((first + second).drop_last() =~= first + second.drop_last());
        lemma_on_concat(first, second.drop_last(), key);
        assert(operations_on(first + second, key) =~= operations_on(first, key) + operations_on(
            second,
            key,
        ));
    }
}

proof fn lemma_on_all(operations: Seq<OperationView>, key: Seq<char>)
    requires
        forall|i: int| 0 <= i < operations.len() ==> concerns(#[trigger] operations[i], key),
    ensures
        operations_on(operations, key) == operations,
    decreases operations.len(),
{
    reveal(Seq::filter);
    if operations.len() > 0 {
        lemma_on_all(operations.drop_last(), key);
        assert(operations.drop_last().push(operations.last()) =~= operations);
    }
}

proof fn lemma_on_none(operations: Seq<OperationView>, key: Seq<char>)
    requires
        forall|i: int| 0 <= i < operations.len() ==> !concerns(#[trigger] operations[i], key),
    ensures
        operations_on(operations, key) == Seq::<OperationView>::empty(),
    decreases operations.len(),
{
    reveal(Seq::filter);
    if operations.len() > 0 {
        lemma_on_none(operations.drop_last(), key);
    } else {
        assert(operations =~= Seq::empty());
    }
}

proof fn lemma_on_replacement(of: Seq<char>, asset: AssetView, key: Seq<char>)
    ensures
        operations_on(replacement(of, asset), key) == if of == key {
            replacement(of, asset)
        } else {
            Seq::<OperationView>::empty()
        },
{
    let operations = replacement(of, asset);
    assert forall|i: int| 0 <= i < operations.len() implies concerns(#[trigger] operations[i], key)
        == (of == key) by {
        if i >= 2 {
            assert(operations[i] == content_setting(of, asset.encodings[i - 2]));
        }
    }
    if of == key {
        lemma_on_all(operations, key);
    } else {
        lemma_on_none(operations, key);
    }
}

proof fn lemma_front_distinct<T>(items: Seq<(Seq<char>, T)>)
    requires
        distinct_keys(items),
        items.len() > 0,
    ensures
        distinct_keys(items.drop_last()),
        !has_key(items.drop_last(), items.last().0),
        forall|key: Seq<char>| #[trigger]
            has_key(items, key) <==> has_key(items.drop_last(), key) || key == items.last().0,
{
    let front = items.drop_last();
    let last = items.len() - 1;
    assert forall|i: int, j: int| 0 <= i < j < front.len() implies (#[trigger] front[i]).0 != (
    #[trigger] front[j]).0 by {
        assert(items[i].0 != items[j].0);
    }
    if has_key(front, items.last().0) {
        let i = choose|i: int| 0 <= i < front.len() && (#[trigger] front[i]).0 == items.last().0;
        assert(items[i].0 != items[last].0);
    }
    assert forall|key: Seq<char>| #[trigger] has_key(items, key) <==> has_key(front, key) || key
        == items.last().0 by {
        if has_key(front, key) {
            let i = choose|i: int| 0 <= i < front.len() && (#[trigger] front[i]).0 == key;
            assert(items[i].0 == key);
        }
        if key == items.last().0 {
            assert(items[last].0 == key);
        }
        if has_key(items, key) && key != items.last().0 {
            let i = choose|i: int| 0 <= i < items.len() && (#[trigger] items[i]).0 == key;
            assert(front[i].0 == key);
        }
    }
}

proof fn lemma_on_deletions(
    current: Seq<(Seq<char>, DetailsView)>,
    uploaded: Seq<(Seq<char>, AssetView)>,
    key: Seq<char>,
)
    requires
        distinct_keys(current),
    ensures
        operations_on(obsolete_deletions(current, uploaded), key) == if has_key(current, key)
            && !has_key(uploaded, key) {
            seq![deletion(key)]
        } else {
            Seq::empty()
        },
    decreases current.len(),
{
    reveal(Seq::filter);
    let deletions = obsolete_deletions(current, uploaded);
    if current.len() == 0 {
        assert(deletions =~= Seq::empty());
        assert(!has_key(current, key));
    } else {
        let front = current.drop_last();
        let earlier = obsolete_deletions(front, uploaded);
        lemma_front_distinct(current);
        lemma_on_deletions(front, uploaded, key);
        if has_key(uploaded, current.last().0) {
            assert(deletions =~= earlier);
        } else {
            assert(deletions =~= earlier.push(deletion(current.last().0)));
            assert(deletions.drop_last() =~= earlier);
            if current.last().0 == key {
                assert(Seq::<OperationView>::empty().push(deletion(key)) =~= seq![deletion(key)]);
            }
        }
    }
}

proof fn lemma_on_replacements(uploaded: Seq<(Seq<char>, AssetView)>, key: Seq<char>)
    requires
        distinct_keys(uploaded),
    ensures
        operations_on(replacements(uploaded), key) == if has_key(uploaded, key) {
            replacement(key, as_map(uploaded)[key])
        } else {
            Seq::<OperationView>::empty()
        },
    decreases uploaded.len(),
{
    let parts = uploaded.map_values(
        |item: (Seq<char>, AssetView)| replacement(item.0, item.1),
    );
    if uploaded.len() == 0 {
        assert(parts.flatten() =~= Seq::empty());
        assert(!has_key(uploaded, key));
        lemma_on_none(replacements(uploaded), key);
    } else {
        let front = uploaded.drop_last();
        let (of, asset) = uploaded.last();
        let earlier = front.map_values(
            |item: (Seq<char>, AssetView)| replacement(item.0, item.1),
        );
        assert(parts =~= earlier.push(replacement(of, asset)));
        earlier.lemma_flatten_push(replacement(of, asset));
        lemma_front_distinct(uploaded);
        lemma_on_replacements(front, key);
        lemma_on_concat(replacements(front), replacement(of, asset), key);
        lemma_on_replacement(of, asset, key);
        let whole = operations_on(replacements(uploaded), key);
        assert(has_key(uploaded, key) <==> has_key(front, key) || key == of);
        if of == key {
            assert(whole =~= replacement(key, asset));
        } else {
            assert(whole =~= operations_on(replacements(front), key));
        }
    }
}

/// What a batch says of a key: an uploaded asset replaces whatever is there; else, if the key is
/// listed, what is there is deleted; else the batch does not touch it.
pub proof fn lemma_operations_on_key(
    details: Seq<DetailsView>,
    assets: Seq<AssetView>,
    key: Seq<char>,
)
    ensures
        operations_on(batch_operations(details_by_key(details), assets), key) == if asset_map(
            assets,
        ).contains_key(key) {
            replacement(key, asset_map(assets)[key])
        } else if listed_keys(details).contains(key) {
            seq![deletion(key)]
        } else {
            Seq::empty()
        },
{
    let current = details_by_key(details);
    let uploaded = assets_by_key(assets);
    lemma_collected(assets.map_values(|asset: AssetView| (asset.location.key, asset)));
    lemma_collected(details.map_values(|item: DetailsView| (item.key, item)));
    lemma_listed_keys(details, key);
    lemma_as_map(uploaded);
    assert(as_map(uploaded).contains_key(key) <==> has_key(uploaded, key));
    lemma_on_deletions(current, uploaded, key);
    lemma_on_replacements(uploaded, key);
    lemma_on_concat(obsolete_deletions(current, uploaded), replacements(uploaded), key);
    assert(operations_on(batch_operations(current, assets), key) =~= operations_on(
        obsolete_deletions(current, uploaded),
        key,
    ) + operations_on(replacements(uploaded), key));
    if has_key(uploaded, key) {
        assert(operations_on(batch_operations(current, assets), key) =~= replacement(
            key,
            asset_map(assets)[key],
        ));
    } else {
        assert(operations_on(batch_operations(current, assets), key) =~= operations_on(
            obsolete_deletions(current, uploaded),
            key,
        ));
    }
}

/// Operation `p` puts the asset of `uploaded[k]` under its key: it comes after a deletion of what is
/// there, and before the settings of the asset's encodings, which another deletion ends.
spec fn creates(
    operations: Seq<OperationView>,
    p: int,
    uploaded: Seq<(Seq<char>, AssetView)>,
    k: int,
) -> bool {
    let (key, asset) = uploaded[k];
    let count = asset.encodings.len();
    &&& 0 <= k < uploaded.len()
    &&& 0 < p
    &&& p + count < operations.len()
    &&& operations[p] == (OperationView::CreateAsset { key, content_type: asset.media_type })
    &&& operations[p - 1] == deletion(key)
    &&& forall|e: int|
        0 <= e < count ==> operations[p + 1 + e] == content_setting(
            key,
            #[trigger] asset.encodings[e],
        )
    &&& p + 1 + count < operations.len() ==> operations[p + 1 + count] is DeleteAsset
}

spec fn in_place(
    operations: Seq<OperationView>,
    p: int,
    uploaded: Seq<(Seq<char>, AssetView)>,
) -> bool {
    match operations[p] {
        OperationView::DeleteAsset { key } => has_key(uploaded, key),
        OperationView::CreateAsset { key, content_type } => exists|k: int|
            creates(operations, p, uploaded, k),
        OperationView::SetAssetContent { key, content_encoding, chunk_ids, sha256 } => p > 0
            && match operations[p - 1] {
            OperationView::CreateAsset { key: of, content_type } => of == key,
            OperationView::SetAssetContent {
                key: of,
                content_encoding: name,
                chunk_ids: ids,
                sha256: digest,
            } => of == key,
            _ => false,
        },
        _ => false,
    }
}

/// The operations are blocks, each of which puts one uploaded asset under its key.
spec fn all_in_place(
    operations: Seq<OperationView>,
    uploaded: Seq<(Seq<char>, AssetView)>,
) -> bool {
    &&& operations.len() > 0 ==> operations[0] is DeleteAsset
    &&& forall|p: int|
        0 <= p < operations.len() ==> #[trigger] in_place(operations, p, uploaded)
    &&& forall|wanted: Seq<char>| #[trigger]
        has_key(uploaded, wanted) ==> exists|p: int|
            0 <= p < operations.len() && (#[trigger] operations[p] matches
                OperationView::CreateAsset { key, content_type } && key == wanted)
    &&& forall|p: int, q: int|
        0 <= p < q < operations.len() && operations[p] is DeleteAsset && operations[q] is DeleteAsset
            ==> #[trigger] operations[p] != #[trigger] operations[q]
}

proof fn lemma_earlier_in_place(
    first: Seq<OperationView>,
    front: Seq<(Seq<char>, AssetView)>,
    key: Seq<char>,
    asset: AssetView,
    p: int,
)
    requires
        0 <= p < first.len(),
        in_place(first, p, front),
    ensures
        in_place(first + replacement(key, asset), p, front.push((key, asset))),
{
    let whole = first + replacement(key, asset);
    let uploaded = front.push((key, asset));
    assert(whole[first.len() as int] == deletion(key));
    assert forall|q: int| 0 <= q < first.len() implies #[trigger] whole[q] == first[q] by {}
    match first[p] {
        OperationView::DeleteAsset { key: of } => {
            let k = choose|k: int| 0 <= k < front.len() && (#[trigger] front[k]).0 == of;
            assert(uploaded[k].0 == of);
        },
        OperationView::CreateAsset { key: of, content_type } => {
            let k = choose|k: int| creates(first, p, front, k);
            assert(uploaded[k] == front[k]);
            assert forall|e: int| 0 <= e < front[k].1.encodings.len() implies whole[p + 1 + e]
                == content_setting(front[k].0, #[trigger] front[k].1.encodings[e]) by {
                assert(whole[p + 1 + e] == first[p + 1 + e]);
            }
            assert(creates(whole, p, uploaded, k));
        },
        _ => {},
    }
}

proof fn lemma_block_in_place(
    first: Seq<OperationView>,
    front: Seq<(Seq<char>, AssetView)>,
    key: Seq<char>,
    asset: AssetView,
    p: int,
)
    requires
        first.len() <= p < first.len() + replacement(key, asset).len(),
    ensures
        in_place(first + replacement(key, asset), p, front.push((key, asset))),
        (first + replacement(key, asset))[p] is DeleteAsset ==> p == first.len(),
{
    let n = first.len() as int;
    let block = replacement(key, asset);
    let whole = first + block;
    let uploaded = front.push((key, asset));
    assert forall|q: int| 0 <= q < block.len() implies #[trigger] block[q] == whole[n + q] by {}
    assert(uploaded[front.len() as int].0 == key);
    if p == n {
        assert(whole[p] == block[0]);
    } else if p == n + 1 {
        assert(whole[p] == block[1]);
        assert(whole[p - 1] == block[0]);
        assert forall|e: int| 0 <= e < asset.encodings.len() implies whole[p + 1 + e]
            == content_setting(key, #[trigger] asset.encodings[e]) by {
            assert(whole[p + 1 + e] == block[2 + e]);
        }
        assert(creates(whole, p, uploaded, front.len() as int));
    } else {
        assert(whole[p] == block[p - n]);
        assert(block[p - n] == content_setting(key, asset.encodings[p - n - 2]));
        assert(whole[p - 1] == block[p - n - 1]);
        if p > n + 2 {
            assert(block[p - n - 1] == content_setting(key, asset.encodings[p - n - 3]));
        }
    }
}

proof fn lemma_replacements_in_place(uploaded: Seq<(Seq<char>, AssetView)>)
    requires
        distinct_keys(uploaded),
    ensures
        all_in_place(replacements(uploaded), uploaded),
    decreases uploaded.len(),
{
    let parts = uploaded.map_values(
        |item: (Seq<char>, AssetView)| replacement(item.0, item.1),
    );
    if uploaded.len() == 0 {
        assert(parts.flatten() =~= Seq::empty());
    } else {
        let front = uploaded.drop_last();
        let (key, asset) = uploaded.last();
        let block = replacement(key, asset);
        let earlier = front.map_values(
            |item: (Seq<char>, AssetView)| replacement(item.0, item.1),
        );
        assert(parts =~= earlier.push(block));
        earlier.lemma_flatten_push(block);
        assert(uploaded =~= front.push((key, asset)));
        lemma_front_distinct(uploaded);
        lemma_replacements_in_place(front);
        lemma_further_in_place(replacements(front), front, key, asset);
    }
}

proof fn lemma_further_in_place(
    first: Seq<OperationView>,
    front: Seq<(Seq<char>, AssetView)>,
    key: Seq<char>,
    asset: AssetView,
)
    requires
        all_in_place(first, front),
        !has_key(front, key),
    ensures
        all_in_place(first + replacement(key, asset), front.push((key, asset))),
{
    let n = first.len() as int;
    let whole = first + replacement(key, asset);
    let uploaded = front.push((key, asset));
    assert forall|p: int| 0 <= p < n implies #[trigger] whole[p] == first[p] by {}
    assert(whole[n] == deletion(key));
    assert(whole[n + 1] == (OperationView::CreateAsset { key, content_type: asset.media_type }));
    assert forall|p: int| 0 <= p < whole.len() implies #[trigger] in_place(
        whole,
        p,
        uploaded,
    ) by {
        if p < n {
            assert(in_place(first, p, front));
            lemma_earlier_in_place(first, front, key, asset, p);
        } else {
            lemma_block_in_place(first, front, key, asset, p);
        }
    }
    assert forall|wanted: Seq<char>| #[trigger] has_key(uploaded, wanted) implies exists|p: int|
        0 <= p < whole.len() && (#[trigger] whole[p] matches OperationView::CreateAsset {
            key: of,
            content_type,
        } && of == wanted) by {
        let k = choose|k: int| 0 <= k < uploaded.len() && (#[trigger] uploaded[k]).0 == wanted;
        if k < front.len() {
            assert(front[k].0 == wanted);
            assert(has_key(front, wanted));
            let p = choose|p: int|
                0 <= p < first.len() && (#[trigger] first[p] matches OperationView::CreateAsset {
                    key: of,
                    content_type,
                } && of == wanted);
            assert(whole[p] == first[p]);
        } else {
            assert(whole[n + 1] is CreateAsset);
        }
    }
    assert forall|p: int, q: int|
        0 <= p < q < whole.len() && whole[p] is DeleteAsset
            && whole[q] is DeleteAsset implies #[trigger] whole[p] != #[trigger] whole[q] by {
        if q < n {
            assert(first[p] != first[q]);
        } else {
            lemma_block_in_place(first, front, key, asset, q);
            if p >= n {
                lemma_block_in_place(first, front, key, asset, p);
            }
            if p < n {
                assert(in_place(first, p, front));
                assert(first[p] == whole[p]);
            }
        }
    }
}

proof fn lemma_deletions_in_place(
    current: Seq<(Seq<char>, DetailsView)>,
    uploaded: Seq<(Seq<char>, AssetView)>,
)
    requires
        distinct_keys(current),
    ensures
        ({
            let operations = obsolete_deletions(current, uploaded);
            &&& forall|p: int|
                0 <= p < operations.len() ==> (#[trigger] operations[p] matches
                    OperationView::DeleteAsset { key } && has_key(current, key) && !has_key(
                    uploaded,
                    key,
                ))
            &&& forall|c: int|
                0 <= c < current.len() && !has_key(uploaded, (#[trigger] current[c]).0)
                    ==> exists|p: int|
                    0 <= p < operations.len() && #[trigger] operations[p] == deletion(current[c].0)
            &&& forall|p: int, q: int|
                0 <= p < q < operations.len() ==> #[trigger] operations[p]
                    != #[trigger] operations[q]
        }),
    decreases current.len(),
{
    reveal(Seq::filter);
    let operations = obsolete_deletions(current, uploaded);
    if current.len() > 0 {
        let front = current.drop_last();
        let first = obsolete_deletions(front, uploaded);
        let last = current.len() - 1;
        lemma_front_distinct(current);
        lemma_deletions_in_place(front, uploaded);
        if has_key(uploaded, current.last().0) {
            assert(operations =~= first);
        } else {
            assert(operations =~= first.push(deletion(current.last().0)));
        }
        assert forall|p: int| 0 <= p < first.len() implies #[trigger] operations[p] == first[p] by {
        }
        assert forall|c: int|
            0 <= c < current.len() && !has_key(
                uploaded,
                (#[trigger] current[c]).0,
            ) implies exists|p: int|
            0 <= p < operations.len() && #[trigger] operations[p] == deletion(current[c].0) by {
            if c < last {
                assert(front[c] == current[c]);
                let p = choose|p: int|
                    0 <= p < first.len() && #[trigger] first[p] == deletion(front[c].0);
                assert(operations[p] == first[p]);
            } else {
                assert(operations[first.len() as int] == deletion(current[c].0));
            }
        }
    }
}

/// Operation `p` puts `assets[i]` under its key, and no later asset has that key.
spec fn created_from(
    operations: Seq<OperationView>,
    p: int,
    assets: Seq<AssetView>,
    i: int,
) -> bool {
    let asset = assets[i];
    let key = asset.location.key;
    let count = asset.encodings.len();
    &&& 0 <= i < assets.len()
    &&& operations[p] == (OperationView::CreateAsset { key, content_type: asset.media_type })
    &&& forall|j: int| i < j < assets.len() ==> (#[trigger] assets[j]).location.key != key
    &&& p + count < operations.len()
    &&& forall|e: int|
        0 <= e < count ==> operations[p + 1 + e] == content_setting(
            key,
            #[trigger] assets[i].encodings[e],
        )
    &&& p + 1 + count < operations.len() ==> operations[p + 1 + count] is DeleteAsset
}

spec fn of_batch(
    operations: Seq<OperationView>,
    p: int,
    current: Seq<(Seq<char>, DetailsView)>,
    assets: Seq<AssetView>,
) -> bool {
    match operations[p] {
        OperationView::DeleteAsset { key } => has_key(current, key) || (exists|i: int|
            0 <= i < assets.len() && (#[trigger] assets[i]).location.key == key),
        OperationView::CreateAsset { key, content_type } => p > 0 && operations[p - 1] == deletion(
            key,
        ) && exists|i: int| created_from(operations, p, assets, i),
        OperationView::SetAssetContent { key, content_encoding, chunk_ids, sha256 } => p > 0
            && match operations[p - 1] {
            OperationView::CreateAsset { key: of, content_type } => of == key,
            OperationView::SetAssetContent {
                key: of,
                content_encoding: name,
                chunk_ids: ids,
                sha256: digest,
            } => of == key,
            _ => false,
        },
        _ => false,
    }
}

proof fn lemma_uploaded_from(assets: Seq<AssetView>, k: int) -> (i: int)
    requires
        0 <= k < assets_by_key(assets).len(),
    ensures
        0 <= i < assets.len(),
        assets_by_key(assets)[k] == (assets[i].location.key, assets[i]),
        forall|j: int|
            i < j < assets.len() ==> (#[trigger] assets[j]).location.key != assets[i].location.key,
{
    let pairs = assets.map_values(|asset: AssetView| (asset.location.key, asset));
    lemma_collected_entries(pairs);
    assert(collected(pairs)[k] == assets_by_key(assets)[k]);
    let i = choose|i: int|
        0 <= i < pairs.len() && #[trigger] pairs[i] == collected(pairs)[k] && (forall|j: int|
            i < j < pairs.len() ==> (#[trigger] pairs[j]).0 != pairs[i].0);
    assert forall|j: int| i < j < assets.len() implies (#[trigger] assets[j]).location.key
        != assets[i].location.key by {
        assert(pairs[j].0 != pairs[i].0);
    }
    i
}

proof fn lemma_distinct_assets(assets: Seq<AssetView>)
    ensures
        distinct_keys(assets_by_key(assets)),
{
    lemma_collected(assets.map_values(|asset: AssetView| (asset.location.key, asset)));
}

proof fn lemma_of_batch(
    current: Seq<(Seq<char>, DetailsView)>,
    assets: Seq<AssetView>,
    p: int,
)
    requires
        distinct_keys(current),
        0 <= p < batch_operations(current, assets).len(),
    ensures
        of_batch(batch_operations(current, assets), p, current, assets),
{
    let operations = batch_operations(current, assets);
    let uploaded = assets_by_key(assets);
    let first = obsolete_deletions(current, uploaded);
    let second = replacements(uploaded);
    let n = first.len() as int;
    lemma_distinct_assets(assets);
    if p < n {
        lemma_deletions_in_place(current, uploaded);
        assert(operations[p] == first[p]);
    } else {
        let at = p - n;
        lemma_replacements_in_place(uploaded);
        assert(operations[p] == second[at]);
        assert(in_place(second, at, uploaded));
        if at > 0 {
            assert(operations[p - 1] == second[at - 1]);
        }
        match second[at] {
            OperationView::DeleteAsset { key } => {
                let k = choose|k: int|
                    0 <= k < uploaded.len() && (#[trigger] uploaded[k]).0 == key;
                let i = lemma_uploaded_from(assets, k);
                assert(assets[i].location.key == key);
            },
            OperationView::CreateAsset { key, content_type } => {
                let k = choose|k: int| creates(second, at, uploaded, k);
                let i = lemma_uploaded_from(assets, k);
                let count = assets[i].encodings.len();
                assert forall|e: int| 0 <= e < count implies operations[p + 1 + e]
                    == content_setting(key, #[trigger] assets[i].encodings[e]) by {
                    assert(operations[p + 1 + e] == second[at + 1 + e]);
                    assert(uploaded[k].1.encodings[e] == assets[i].encodings[e]);
                }
                if p + 1 + count < operations.len() {
                    assert(operations[p + 1 + count] == second[at + 1 + count]);
                }
                assert(created_from(operations, p, assets, i));
            },
            _ => {},
        }
    }
}

proof fn lemma_uploaded_key_is_created(
    current: Seq<(Seq<char>, DetailsView)>,
    assets: Seq<AssetView>,
    i: int,
) -> (p: int)
    requires
        0 <= i < assets.len(),
    ensures
        0 <= p < batch_operations(current, assets).len(),
        batch_operations(current, assets)[p] matches OperationView::CreateAsset {
            key,
            content_type,
        } && key == assets[i].location.key,
        p >= obsolete_deletions(current, assets_by_key(assets)).len(),
{
    let pairs = assets.map_values(|asset: AssetView| (asset.location.key, asset));
    let uploaded = assets_by_key(assets);
    let first = obsolete_deletions(current, uploaded);
    let second = replacements(uploaded);
    let wanted = assets[i].location.key;
    lemma_distinct_assets(assets);
    lemma_replacements_in_place(uploaded);
    lemma_collected(pairs);
    assert(pairs[i].0 == wanted);
    assert(has_key(pairs, wanted));
    assert(has_key(uploaded, wanted));
    let p = choose|p: int|
        0 <= p < second.len() && (#[trigger] second[p] matches OperationView::CreateAsset {
            key,
            content_type,
        } && key == wanted);
    assert(batch_operations(current, assets)[first.len() + p] == second[p]);
    first.len() + p
}

proof fn lemma_current_key_is_deleted(
    current: Seq<(Seq<char>, DetailsView)>,
    assets: Seq<AssetView>,
    c: int,
) -> (p: int)
    requires
        distinct_keys(current),
        0 <= c < current.len(),
    ensures
        0 <= p < batch_operations(current, assets).len(),
        batch_operations(current, assets)[p] == deletion(current[c].0),
{
    let operations = batch_operations(current, assets);
    let uploaded = assets_by_key(assets);
    let first = obsolete_deletions(current, uploaded);
    let wanted = current[c].0;
    if has_key(uploaded, wanted) {
        let k = choose|k: int| 0 <= k < uploaded.len() && (#[trigger] uploaded[k]).0 == wanted;
        let i = lemma_uploaded_from(assets, k);
        let p = lemma_uploaded_key_is_created(current, assets, i);
        lemma_of_batch(current, assets, p);
        p - 1
    } else {
        lemma_deletions_in_place(current, uploaded);
        let p = choose|p: int| 0 <= p < first.len() && #[trigger] first[p] == deletion(wanted);
        assert(operations[p] == first[p]);
        p
    }
}

proof fn lemma_deleted_once(
    current: Seq<(Seq<char>, DetailsView)>,
    assets: Seq<AssetView>,
    p: int,
    q: int,
)
    requires
        distinct_keys(current),
        0 <= p < q < batch_operations(current, assets).len(),
        batch_operations(current, assets)[p] is DeleteAsset,
        batch_operations(current, assets)[q] is DeleteAsset,
    ensures
        batch_operations(current, assets)[p] != batch_operations(current, assets)[q],
{
    let operations = batch_operations(current, assets);
    let uploaded = assets_by_key(assets);
    let first = obsolete_deletions(current, uploaded);
    let second = replacements(uploaded);
    let n = first.len() as int;
    lemma_distinct_assets(assets);
    lemma_deletions_in_place(current, uploaded);
    lemma_replacements_in_place(uploaded);
    if q < n {
        assert(operations[p] == first[p] && operations[q] == first[q]);
    } else {
        assert(operations[q] == second[q - n]);
        if p >= n {
            assert(operations[p] == second[p - n]);
        } else {
            assert(operations[p] == first[p]);
            assert(in_place(second, q - n, uploaded));
        }
    }
}

proof fn lemma_uploaded_key(
    current: Seq<(Seq<char>, DetailsView)>,
    assets: Seq<AssetView>,
    wanted: Seq<char>,
)
    ensures
        has_key(assets_by_key(assets), wanted) <==> exists|i: int|
            0 <= i < assets.len() && (#[trigger] assets[i]).location.key == wanted,
        has_key(assets_by_key(assets), wanted) ==> exists|p: int|
            0 <= p < batch_operations(current, assets).len() && (
            #[trigger] batch_operations(current, assets)[p] matches OperationView::CreateAsset {
                key,
                content_type,
            } && key == wanted),
{
    let uploaded = assets_by_key(assets);
    let pairs = assets.map_values(|asset: AssetView| (asset.location.key, asset));
    lemma_collected(pairs);
    if exists|i: int| 0 <= i < assets.len() && (#[trigger] assets[i]).location.key == wanted {
        let i = choose|i: int|
            0 <= i < assets.len() && (#[trigger] assets[i]).location.key == wanted;
        assert(pairs[i].0 == wanted);
        assert(has_key(pairs, wanted));
        let p = lemma_uploaded_key_is_created(current, assets, i);
        assert(batch_operations(current, assets)[p] is CreateAsset);
    }
    if has_key(uploaded, wanted) {
        assert(has_key(pairs, wanted));
        let i = choose|i: int| 0 <= i < pairs.len() && (#[trigger] pairs[i]).0 == wanted;
        assert(assets[i].location.key == wanted);
    }
}

/// What a batch is made of. Nothing is in it but deletions, creations and settings of content. Every
/// key that was listed or uploaded is deleted once and no other key is; so nothing that was there
/// stays. An asset is created for every uploaded key and for no other, right after what was there was
/// deleted. It has the type of the last asset that was uploaded under the key, and right after its
/// creation it is given each encoding of that asset, with the asset's chunks and digest, and no
/// other.
pub proof fn lemma_batch_is_made_of(
    current: Seq<(Seq<char>, DetailsView)>,
    assets: Seq<AssetView>,
)
    requires
        forall|c: int, d: int|
            0 <= c < d < current.len() ==> (#[trigger] current[c]).0 != (#[trigger] current[d]).0,
    ensures
        ({
            let operations = batch_operations(current, assets);
            &&& forall|p: int|
                0 <= p < operations.len() ==> match #[trigger] operations[p] {
                    OperationView::DeleteAsset { key } => (exists|c: int|
                        0 <= c < current.len() && (#[trigger] current[c]).0 == key) || (exists|
                        i: int,
                    | 0 <= i < assets.len() && (#[trigger] assets[i]).location.key == key),
                    OperationView::CreateAsset { key, content_type } => exists|i: int|
                        {
                            let count = assets[i].encodings.len();
                            &&& 0 <= i < assets.len()
                            &&& (#[trigger] assets[i]).location.key == key
                            &&& assets[i].media_type == content_type
                            &&& forall|j: int|
                                i < j < assets.len() ==> (#[trigger] assets[j]).location.key != key
                            &&& p + count < operations.len()
                            &&& forall|e: int|
                                0 <= e < count ==> operations[p + 1 + e] == (
                                OperationView::SetAssetContent {
                                    key,
                                    content_encoding: (#[trigger] assets[i].encodings[e]).0,
                                    chunk_ids: assets[i].encodings[e].1.chunk_ids,
                                    sha256: Some(assets[i].encodings[e].1.sha256),
                                })
                            &&& forall|q: int|
                                q == p + 1 + count && q < operations.len() ==> (
                                #[trigger] operations[q]) is DeleteAsset
                        },
                    OperationView::SetAssetContent {
                        key,
                        content_encoding,
                        chunk_ids,
                        sha256,
                    } => p > 0,
                    _ => false,
                }
            &&& operations.len() > 0 ==> operations[0] is DeleteAsset
            &&& forall|p: int, q: int|
                0 <= p && q == p + 1 && q < operations.len() ==> match (
                    #[trigger] operations[p],
                    #[trigger] operations[q],
                ) {
                    (before, OperationView::CreateAsset { key, content_type }) => before == (
                    OperationView::DeleteAsset { key }),
                    (
                        OperationView::CreateAsset { key: of, content_type },
                        OperationView::SetAssetContent {
                            key,
                            content_encoding,
                            chunk_ids,
                            sha256,
                        },
                    ) => of == key,
                    (
                        OperationView::SetAssetContent {
                            key: of,
                            content_encoding: name,
                            chunk_ids: ids,
                            sha256: digest,
                        },
                        OperationView::SetAssetContent {
                            key,
                            content_encoding,
                            chunk_ids,
                            sha256,
                        },
                    ) => of == key,
                    (before, after) => after is DeleteAsset,
                }
            &&& forall|wanted: Seq<char>|
                {
                    &&& #[trigger] has_key(current, wanted) <==> exists|c: int|
                        0 <= c < current.len() && (#[trigger] current[c]).0 == wanted
                    &&& has_key(current, wanted) ==> exists|p: int|
                        0 <= p < operations.len() && #[trigger] operations[p] == (
                        OperationView::DeleteAsset { key: wanted })
                }
            &&& forall|wanted: Seq<char>|
                {
                    &&& #[trigger] has_key(assets_by_key(assets), wanted) <==> exists|i: int|
                        0 <= i < assets.len() && (#[trigger] assets[i]).location.key == wanted
                    &&& has_key(assets_by_key(assets), wanted) ==> exists|p: int|
                        0 <= p < operations.len() && (#[trigger] operations[p] matches
                            OperationView::CreateAsset { key, content_type } && key == wanted)
                }
            &&& forall|p: int, q: int|
                0 <= p < q < operations.len() && operations[p] is DeleteAsset
                    && operations[q] is DeleteAsset ==> #[trigger] operations[p]
                    != #[trigger] operations[q]
        }),
{
    let operations = batch_operations(current, assets);
    assert forall|p: int| 0 <= p < operations.len() implies #[trigger] of_batch(
        operations,
        p,
        current,
        assets,
    ) by {
        lemma_of_batch(current, assets, p);
    }
    assert forall|p: int| 0 <= p < operations.len() && (
    #[trigger] operations[p]) is CreateAsset implies exists|i: int|
        {
            &&& 0 <= i < assets.len()
            &&& created_from(operations, p, assets, i)
            &&& (#[trigger] assets[i]).location.key == operations[p]->CreateAsset_key
        } by {
        assert(of_batch(operations, p, current, assets));
        let i = choose|i: int| created_from(operations, p, assets, i);
        assert(assets[i].location.key == operations[p]->CreateAsset_key);
    }
    assert forall|p: int| 0 <= p < operations.len() implies match #[trigger] operations[p] {
        OperationView::DeleteAsset { key } => has_key(current, key) || (exists|i: int|
            0 <= i < assets.len() && (#[trigger] assets[i]).location.key == key),
        OperationView::CreateAsset { key, content_type } => p > 0,
        OperationView::SetAssetContent { key, content_encoding, chunk_ids, sha256 } => p > 0,
        _ => false,
    } by {
        assert(of_batch(operations, p, current, assets));
    }
    assert forall|p: int, q: int|
        0 <= p && q == p + 1 && q < operations.len() && !(
        #[trigger] operations[q] is DeleteAsset) implies #[trigger] operations[p] == operations[p]
        && match operations[q] {
        OperationView::CreateAsset { key, content_type } => operations[p] == deletion(key),
        OperationView::SetAssetContent {
            key,
            content_encoding,
            chunk_ids,
            sha256,
        } => match operations[p] {
            OperationView::CreateAsset { key: of, content_type } => of == key,
            OperationView::SetAssetContent {
                key: of,
                content_encoding: name,
                chunk_ids: ids,
                sha256: digest,
            } => of == key,
            _ => false,
        },
        _ => false,
    } by {
        assert(of_batch(operations, q, current, assets));
    }
    assert forall|wanted: Seq<char>| #[trigger] has_key(current, wanted) implies exists|p: int|
        0 <= p < operations.len() && #[trigger] operations[p] == (OperationView::DeleteAsset {
            key: wanted,
        }) by {
        let c = choose|c: int| 0 <= c < current.len() && (#[trigger] current[c]).0 == wanted;
        let p = lemma_current_key_is_deleted(current, assets, c);
        assert(operations[p] is DeleteAsset);
    }
    assert forall|wanted: Seq<char>|
        {
            &&& #[trigger] has_key(assets_by_key(assets), wanted) <==> exists|i: int|
                0 <= i < assets.len() && (#[trigger] assets[i]).location.key == wanted
            &&& has_key(assets_by_key(assets), wanted) ==> exists|p: int|
                0 <= p < operations.len() && (#[trigger] operations[p] matches
                    OperationView::CreateAsset { key, content_type } && key == wanted)
        } by {
        lemma_uploaded_key(current, assets, wanted);
    }
    assert forall|p: int, q: int|
        0 <= p < q < operations.len() && operations[p] is DeleteAsset
            && operations[q] is DeleteAsset implies #[trigger] operations[p]
        != #[trigger] operations[q] by {
        lemma_deleted_once(current, assets, p, q);
    }
}

proof fn lemma_asset_map(assets: Seq<AssetView>, key: Seq<char>, asset: AssetView)
    requires
        distinct_asset_keys(assets),
    ensures
        asset_map(assets).contains_key(key) && asset_map(assets)[key] == asset
            <==> assets.contains(asset) && asset.location.key == key,
{
    let pairs = assets.map_values(|asset: AssetView| (asset.location.key, asset));
    lemma_as_map(pairs);
    assert forall|i: int, j: int| 0 <= i < j < pairs.len() implies (#[trigger] pairs[i]).0 != (
    #[trigger] pairs[j]).0 by {
        assert(assets[i].location.key != assets[j].location.key);
    }
    if asset_map(assets).contains_key(key) {
        assert(has_key(pairs, key));
        let i = choose|i: int| 0 <= i < pairs.len() && (#[trigger] pairs[i]).0 == key;
        assert(as_map(pairs)[pairs[i].0] == pairs[i].1);
        assert(assets.contains(assets[i]));
    }
    if assets.contains(asset) && asset.location.key == key {
        let i = choose|i: int| 0 <= i < assets.len() && assets[i] == asset;
        assert(pairs[i].0 == key);
        assert(has_key(pairs, key));
    }
}

proof fn lemma_permuted_keys(assets: Seq<AssetView>, permuted: Seq<AssetView>)
    requires
        distinct_asset_keys(assets),
        permuted.to_multiset() == assets.to_multiset(),
    ensures
        distinct_asset_keys(permuted),
        forall|asset: AssetView| #[trigger] permuted.contains(asset) <==> assets.contains(asset),
{
    broadcast use vstd::seq_lib::group_to_multiset_ensures;

    assert forall|asset: AssetView| #[trigger] permuted.contains(asset) <==> assets.contains(
        asset,
    ) by {
        assert(permuted.contains(asset) <==> permuted.to_multiset().count(asset) > 0);
        assert(assets.contains(asset) <==> assets.to_multiset().count(asset) > 0);
    }
    assert(assets.no_duplicates()) by {
        assert forall|i: int, j: int|
            0 <= i < assets.len() && 0 <= j < assets.len() && i != j implies assets[i]
            != assets[j] by {
            if i < j {
                assert(assets[i].location.key != assets[j].location.key);
            } else {
                assert(assets[j].location.key != assets[i].location.key);
            }
        }
    }
    assets.lemma_multiset_has_no_duplicates();
    permuted.lemma_multiset_has_no_duplicates_conv();
    assert forall|i: int, j: int| 0 <= i < j < permuted.len() implies (
    #[trigger] permuted[i]).location.key != (#[trigger] permuted[j]).location.key by {
        assert(permuted.contains(permuted[i]));
        assert(permuted.contains(permuted[j]));
        let a = choose|a: int| 0 <= a < assets.len() && assets[a] == permuted[i];
        let b = choose|b: int| 0 <= b < assets.len() && assets[b] == permuted[j];
        assert(permuted[i] != permuted[j]);
        if a < b {
            assert(assets[a].location.key != assets[b].location.key);
        } else {
            assert(assets[b].location.key != assets[a].location.key);
        }
    }
}

/// A batch depends only on which keys are listed and on which assets were uploaded: if the same keys
/// are listed in any way, and the same assets, no two of which have the same key, are uploaded in
/// any order, the batch says the same of every key.
pub proof fn lemma_order_does_not_matter(
    details: Seq<DetailsView>,
    relisted: Seq<DetailsView>,
    assets: Seq<AssetView>,
    permuted: Seq<AssetView>,
    key: Seq<char>,
)
    requires
        listed_keys(relisted) == listed_keys(details),
        distinct_asset_keys(assets),
        permuted.to_multiset() == assets.to_multiset(),
    ensures
        operations_on(batch_operations(details_by_key(relisted), permuted), key)
            == operations_on(batch_operations(details_by_key(details), assets), key),
{
    lemma_permuted_keys(assets, permuted);
    lemma_operations_on_key(details, assets, key);
    lemma_operations_on_key(relisted, permuted, key);
    let asset = asset_map(assets)[key];
    let other = asset_map(permuted)[key];
    lemma_asset_map(assets, key, asset);
    lemma_asset_map(permuted, key, asset);
    lemma_asset_map(assets, key, other);
    lemma_asset_map(permuted, key, other);
    assert(permuted.contains(asset) <==> assets.contains(asset));
    assert(permuted.contains(other) <==> assets.contains(other));
}

} // verus!
