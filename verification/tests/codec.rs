use inv_sync::client::ServerConn;
use inv_sync::codec::{
    dec_u32, dec_u64, decode_inv, decode_item, enc_u32, enc_u64, encode_inv, encode_item,
};
use inv_sync::inv::{Id, Inv, Item, Listing, Listings, Picture, Platform, Usd};
use inv_sync::protocol::MemStream;

fn full_item() -> Item {
    let mut it = Item::new(1_700_000_000);
    it.location = "shelf B, crate 3".to_string();
    it.listings.add_listing(Platform::from_idx(0).unwrap(), 1_650_000_000);
    it.listings.add_listing(Platform::from_idx(7).unwrap(), 1_660_000_000);
    it.picture = Some(Picture { data: vec![0, 1, 2, 253, 254, 255], size: [2, 3] });
    it.name = "Vintage camera \u{e9}\u{65e5}\u{672c}".to_string();
    it.desc = "boxed, works".to_string();
    it.count = 4;
    it.est_cost = Usd(546);
    it.condition = "FairInBox".to_string();
    it.color = "black".to_string();
    it.dimensions = [0x3f800000, 0x40000000, 0x40400000];
    it.weight = 0x3f000000;
    it.shipping_weight = 0x3f400000;
    it.model_no = 987654321098;
    it.serial_no = 111222333444;
    it.brand = "Acme".to_string();
    it
}

#[test]
fn u32_round_trip_is_big_endian() {
    let mut out: Vec<u8> = Vec::new();
    enc_u32(&mut out, 0x01020304);
    assert_eq!(out, vec![1, 2, 3, 4]);
    let (x, p) = dec_u32(&out, 0).unwrap();
    assert_eq!(x, 0x01020304);
    assert_eq!(p, 4);
}

#[test]
fn u64_round_trip_is_big_endian() {
    let mut out: Vec<u8> = Vec::new();
    enc_u64(&mut out, 0x0102030405060708);
    assert_eq!(out, vec![1, 2, 3, 4, 5, 6, 7, 8]);
    let (x, p) = dec_u64(&out, 0).unwrap();
    assert_eq!(x, 0x0102030405060708);
    assert_eq!(p, 8);
}

#[test]
fn dec_u32_rejects_short_input() {
    assert!(dec_u32(&vec![1, 2, 3], 0).is_none());
    assert!(dec_u32(&vec![1, 2, 3, 4], 1).is_none());
}

#[test]
fn item_round_trip() {
    let it = full_item();
    let bytes = encode_item(&it).unwrap();
    let back = decode_item(&bytes).unwrap();
    assert_eq!(back, it);
}

#[test]
fn blank_item_round_trip() {
    let it = Item::new(0);
    let bytes = encode_item(&it).unwrap();
    let back = decode_item(&bytes).unwrap();
    assert_eq!(back, it);
    assert_eq!(back.count, 1);
    assert_eq!(back.picture, None);
}

#[test]
fn item_decode_rejects_truncation_and_trailing_garbage() {
    let it = full_item();
    let bytes = encode_item(&it).unwrap();
    let mut short = bytes.clone();
    short.pop();
    assert!(decode_item(&short).is_none());
    let mut long = bytes.clone();
    long.push(0);
    assert!(decode_item(&long).is_none());
}

#[test]
fn inv_round_trip_reproduces_items_and_platform_names() {
    let mut inv = Inv::new();
    inv.platform_names.push("Ebay".to_string());
    inv.platform_names.push("Facebook".to_string());
    inv.items.insert(Id(10), full_item());
    let mut other = Item::new(5);
    other.name = "spare part".to_string();
    inv.items.insert(Id(0xFFFF_FFFF), other);

    let bytes = encode_inv(&inv).unwrap();
    let back = decode_inv(&bytes).unwrap();

    assert_eq!(back.platform_names, vec!["Ebay".to_string(), "Facebook".to_string()]);
    assert_eq!(back.item_count(), 2);
    assert_eq!(back.items.get(Id(10)), inv.items.get(Id(10)));
    assert_eq!(back.items.get(Id(0xFFFF_FFFF)), inv.items.get(Id(0xFFFF_FFFF)));
}

#[test]
fn empty_inv_round_trip() {
    let inv = Inv::new();
    let bytes = encode_inv(&inv).unwrap();
    let back = decode_inv(&bytes).unwrap();
    assert_eq!(back.item_count(), 0);
    assert_eq!(back.platform_count(), 0);
}

#[test]
fn inv_decode_rejects_garbage() {
    assert!(decode_inv(&vec![]).is_none());
    assert!(decode_inv(&vec![0, 0, 0, 1]).is_none());
    assert!(decode_inv(&vec![255, 255, 255, 255, 1, 2, 3]).is_none());
}

#[test]
fn listings_helpers() {
    let mut l = Listings::empty();
    assert_eq!(l.count(), 0);
    let p2 = Platform::from_idx(2).unwrap();
    l.add_listing(p2, 77);
    assert!(l.contains_platform(p2));
    assert!(!l.contains_platform(Platform::from_idx(3).unwrap()));
    assert_eq!(l.count(), 1);
    l.0[2] = Some(Listing { date: 77, sold: 5 });
    l.0[4] = Some(Listing { date: 80, sold: 7 });
    assert_eq!(l.total_sold(), 12);
    assert!(Platform::from_idx(8).is_none());
    assert_eq!(Platform::from_idx(7).unwrap().as_idx(), 7);
}

#[test]
fn item_helpers() {
    let it = full_item();
    assert_eq!(it.sold_count(), 0);
    let copy = it.duplicate(42);
    assert_eq!(copy.creation_date, 42);
    assert_eq!(copy.name, it.name);
    assert_eq!(copy.picture, it.picture);
}

#[test]
fn inv_decode_rejects_duplicate_ids() {
    // Hand-assembled inventory bytes: no platform names, two entries that
    // reuse one identifier.
    let item_bytes = encode_item(&Item::new(3)).unwrap();
    let mut data: Vec<u8> = Vec::new();
    enc_u32(&mut data, 0); // platform name count
    enc_u32(&mut data, 2); // entry count
    for _ in 0..2 {
        enc_u32(&mut data, 42); // the same identifier twice
        data.extend_from_slice(&item_bytes);
    }
    assert!(decode_inv(&data).is_none());

    // The same layout with distinct identifiers decodes.
    let mut data: Vec<u8> = Vec::new();
    enc_u32(&mut data, 0);
    enc_u32(&mut data, 2);
    for id in [41u32, 42] {
        enc_u32(&mut data, id);
        data.extend_from_slice(&item_bytes);
    }
    let inv = decode_inv(&data).unwrap();
    assert_eq!(inv.item_count(), 2);
    assert!(inv.items.contains_key(Id(41)));
}

#[test]
fn insert_frame_layout() {
    let mut cs = MemStream::new();
    cs.feed(&[10]);
    let mut conn = ServerConn::connect(cs, "x").unwrap();
    let _ = conn.stream_mut().take_output();

    let it = Item::new(9);
    let blob = encode_item(&it).unwrap();
    cs_feed_ack(&mut conn);
    conn.insert_item(Id(0x01020304), &it).unwrap();
    let frame = conn.stream_mut().take_output();
    assert_eq!(frame[0], 3);
    assert_eq!(&frame[1..5], &[1, 2, 3, 4]);
    assert_eq!(&frame[5..9], (blob.len() as u32).to_be_bytes());
    assert_eq!(&frame[9..], &blob[..]);
}

fn cs_feed_ack(conn: &mut ServerConn<MemStream>) {
    conn.stream_mut().feed(&[11]);
}

#[test]
fn all_locations_are_sorted_and_deduplicated() {
    let mut inv = Inv::new();
    let mut a = Item::new(1);
    a.location = "garage".to_string();
    let mut b = Item::new(2);
    b.location = "attic".to_string();
    let mut c = Item::new(3);
    c.location = "garage".to_string();
    let d = Item::new(4); // empty location stays out
    inv.items.insert(Id(1), a);
    inv.items.insert(Id(2), b);
    inv.items.insert(Id(3), c);
    inv.items.insert(Id(4), d);
    let locs = inv.all_locations();
    assert_eq!(locs, vec!["attic".to_string(), "garage".to_string()]);
}
