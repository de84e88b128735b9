use candid::Nat;
use dfx::assets::{
    add_identity_encoding, commit_operations, list_by_key, make_chunked_asset,
    make_chunked_asset_encoding, ChunkedAsset, ChunkedAssetEncoding,
};
use dfx::keyed_list::KeyedList;
use dfx::locations::AssetLocation;
use dfx::media_type::UnknownContentType;
use dfx::protocol::{
    AssetDetails, BatchOperationKind, CreateAssetArguments, DeleteAssetArguments,
    SetAssetContentArguments,
};

const DIGEST_OF_ABC: [u8; 32] = [
    0xba, 0x78, 0x16, 0xbf, 0x8f, 0x01, 0xcf, 0xea, 0x41, 0x41, 0x40, 0xde, 0x5d, 0xae, 0x22, 0x23,
    0xb0, 0x03, 0x61, 0xa3, 0x96, 0x17, 0x7a, 0x9c, 0xb4, 0x10, 0xff, 0x61, 0xf2, 0x00, 0x15, 0xad,
];

fn nats(ids: &[u64]) -> Vec<Nat> {
    ids.iter().map(|id| Nat::from(*id)).collect()
}

fn details(key: &str, content_type: &str) -> AssetDetails {
    AssetDetails { key: key.to_string(), encodings: vec![], content_type: content_type.to_string() }
}

fn location(key: &str) -> AssetLocation {
    AssetLocation { entry: 0, source: format!("dist{}", key), key: key.to_string() }
}

fn asset(key: &str, media_type: &str, encodings: &[(&str, &[u64], u8)]) -> ChunkedAsset {
    let mut list = KeyedList::new();
    for (name, ids, tag) in encodings {
        list = list.insert(
            name.to_string(),
            ChunkedAssetEncoding { chunk_ids: nats(ids), sha256: vec![*tag] },
        );
    }
    ChunkedAsset {
        asset_location: location(key),
        media_type: media_type.to_string(),
        encodings: list,
    }
}

fn delete(key: &str) -> BatchOperationKind {
    BatchOperationKind::DeleteAsset(DeleteAssetArguments { key: key.to_string() })
}

fn create(key: &str, content_type: &str) -> BatchOperationKind {
    BatchOperationKind::CreateAsset(CreateAssetArguments {
        key: key.to_string(),
        content_type: content_type.to_string(),
    })
}

fn set(key: &str, encoding: &str, ids: &[u64], tag: u8) -> BatchOperationKind {
    BatchOperationKind::SetAssetContent(SetAssetContentArguments {
        key: key.to_string(),
        content_encoding: encoding.to_string(),
        chunk_ids: nats(ids),
        sha256: Some(vec![tag]),
    })
}

fn operations_on<'a>(
    operations: &'a [BatchOperationKind],
    key: &str,
) -> Vec<&'a BatchOperationKind> {
    operations
        .iter()
        .filter(|operation| match operation {
            BatchOperationKind::CreateAsset(args) => args.key == key,
            BatchOperationKind::SetAssetContent(args) => args.key == key,
            BatchOperationKind::UnsetAssetContent(args) => args.key == key,
            BatchOperationKind::DeleteAsset(args) => args.key == key,
            BatchOperationKind::Clear(_) => true,
        })
        .collect()
}

#[test]
fn obsolete_assets_go_and_uploaded_ones_are_replaced() {
    let current = list_by_key(vec![
        details("/old.html", "text/html"),
        details("/kept.html", "text/html"),
        details("/gone.css", "text/css"),
    ]);
    let assets = vec![
        asset("/kept.html", "text/html", &[("identity", &[1, 2], 7)]),
        asset("/new.png", "image/png", &[("identity", &[3], 8)]),
    ];
    assert_eq!(
        commit_operations(&current, assets),
        vec![
            delete("/old.html"),
            delete("/gone.css"),
            delete("/kept.html"),
            create("/kept.html", "text/html"),
            set("/kept.html", "identity", &[1, 2], 7),
            delete("/new.png"),
            create("/new.png", "image/png"),
            set("/new.png", "identity", &[3], 8),
        ]
    );
}

#[test]
fn every_encoding_is_set() {
    let current = list_by_key(vec![]);
    let assets =
        vec![asset("/a.txt", "text/plain", &[("identity", &[1], 1), ("gzip", &[2, 3], 2)])];
    assert_eq!(
        commit_operations(&current, assets),
        vec![
            delete("/a.txt"),
            create("/a.txt", "text/plain"),
            set("/a.txt", "identity", &[1], 1),
            set("/a.txt", "gzip", &[2, 3], 2),
        ]
    );
}

#[test]
fn an_asset_without_encodings_is_created_empty() {
    let current = list_by_key(vec![]);
    assert_eq!(
        commit_operations(&current, vec![asset("/a.txt", "text/plain", &[])]),
        vec![delete("/a.txt"), create("/a.txt", "text/plain")]
    );
}

#[test]
fn of_two_assets_with_one_key_the_later_counts() {
    let current = list_by_key(vec![]);
    let assets = vec![
        asset("/a", "text/plain", &[("identity", &[1], 1)]),
        asset("/b", "text/plain", &[("identity", &[2], 2)]),
        asset("/a", "text/css", &[("identity", &[3], 3)]),
    ];
    assert_eq!(
        commit_operations(&current, assets),
        vec![
            delete("/a"),
            create("/a", "text/css"),
            set("/a", "identity", &[3], 3),
            delete("/b"),
            create("/b", "text/plain"),
            set("/b", "identity", &[2], 2),
        ]
    );
}

#[test]
fn nothing_uploaded_deletes_everything_listed() {
    let current = list_by_key(vec![details("/a", "text/plain"), details("/b", "text/plain")]);
    assert_eq!(commit_operations(&current, vec![]), vec![delete("/a"), delete("/b")]);
}

#[test]
fn nothing_at_all_is_no_operation() {
    assert_eq!(commit_operations(&list_by_key(vec![]), vec![]), vec![]);
}

#[test]
fn a_key_listed_twice_is_deleted_once() {
    let current = list_by_key(vec![
        details("/a", "text/plain"),
        details("/b", "text/plain"),
        details("/a", "text/css"),
    ]);
    assert_eq!(current.len(), 2);
    let (key, first) = current.entry(0);
    assert_eq!(key, "/a");
    assert_eq!(first.content_type, "text/css");
    assert_eq!(commit_operations(&current, vec![]), vec![delete("/a"), delete("/b")]);
}

#[test]
fn an_encoding_holds_the_digest_of_the_content() {
    let encoding = make_chunked_asset_encoding(b"abc", nats(&[5, 6]));
    assert_eq!(encoding.sha256, DIGEST_OF_ABC.to_vec());
    assert_eq!(encoding.chunk_ids, nats(&[5, 6]));
}

#[test]
fn an_asset_has_the_identity_encoding_alone() {
    let asset =
        make_chunked_asset(location("/a.txt"), "text/plain".to_string(), b"abc", nats(&[9]));
    assert_eq!(asset.asset_location.key, "/a.txt");
    assert_eq!(asset.asset_location.source, "dist/a.txt");
    assert_eq!(asset.media_type, "text/plain");
    assert_eq!(asset.encodings.len(), 1);
    let (name, encoding) = asset.encodings.entry(0);
    assert_eq!(name, "identity");
    assert_eq!(encoding.chunk_ids, nats(&[9]));
    assert_eq!(encoding.sha256, DIGEST_OF_ABC.to_vec());
}

#[test]
fn the_identity_encoding_replaces_an_earlier_one() {
    let first = ChunkedAssetEncoding { chunk_ids: nats(&[1]), sha256: vec![1] };
    let second = ChunkedAssetEncoding { chunk_ids: nats(&[2]), sha256: vec![2] };
    let encodings = add_identity_encoding(add_identity_encoding(KeyedList::new(), first), second);
    assert_eq!(encodings.len(), 1);
    assert_eq!(encodings.entry(0).0, "identity");
    assert_eq!(encodings.entry(0).1.sha256, vec![2]);
}

#[test]
fn unknown_content_type_in_words() {
    let unknown = UnknownContentType { source: "dist/LICENSE".to_string() };
    assert_eq!(unknown.message(), "Unable to determine content type for 'dist/LICENSE'.");
}

#[test]
fn the_order_of_listing_and_uploads_does_not_matter_to_a_key() {
    let page = || asset("/page.html", "text/html", &[("identity", &[1, 2], 7), ("gzip", &[4], 9)]);
    let image = || asset("/image.png", "image/png", &[("identity", &[3], 8)]);
    let first = commit_operations(
        &list_by_key(vec![details("/old", "text/css"), details("/page.html", "text/html")]),
        vec![page(), image()],
    );
    let second = commit_operations(
        &list_by_key(vec![
            details("/page.html", "text/plain"),
            details("/old", "text/plain"),
            details("/old", "text/css"),
        ]),
        vec![image(), page()],
    );
    assert_ne!(first, second);
    let expected = [
        ("/old", vec![delete("/old")]),
        (
            "/page.html",
            vec![
                delete("/page.html"),
                create("/page.html", "text/html"),
                set("/page.html", "identity", &[1, 2], 7),
                set("/page.html", "gzip", &[4], 9),
            ],
        ),
        (
            "/image.png",
            vec![
                delete("/image.png"),
                create("/image.png", "image/png"),
                set("/image.png", "identity", &[3], 8),
            ],
        ),
        ("/absent", vec![]),
    ];
    for (key, operations) in expected {
        let operations: Vec<&BatchOperationKind> = operations.iter().collect();
        assert_eq!(operations_on(&first, key), operations);
        assert_eq!(operations_on(&second, key), operations);
    }
}
