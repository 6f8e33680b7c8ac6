//! What turns values into canonical bytes and hashes. The encoding and the hash functions are
//! chosen outside this crate; here they are whatever the type that implements [`Codec`] does.
use crate::protocol::{
    change_views, Change, ChangeView, EntityId, EntityName, HexString, Payload, RowVersion,
};
use vstd::prelude::*;

verus! {

/// A row and the version it is at.
#[derive(Debug, PartialEq, Eq)]
pub struct RowState {
    pub entity: EntityName,
    pub entity_id: EntityId,
    pub row_version: RowVersion,
}

/// A row and its version, the names as sequences of characters.
pub struct RowStateView {
    pub row: (Seq<char>, Seq<char>),
    pub row_version: u64,
}

impl View for RowState {
    type V = RowStateView;

    open spec fn view(&self) -> RowStateView {
        RowStateView {
            row: (self.entity@, self.entity_id@),
            row_version: self.row_version.value,
        }
    }
}

/// Some rows, as what they stand for.
pub open spec fn row_views(rows: Seq<RowState>) -> Seq<RowStateView> {
    rows.map_values(|r: RowState| r@)
}

/// The canonical encoding and the hashes over it.
///
/// Nothing is promised of an implementation. What a function needs of one is in that function's
/// `requires`: [`is_function`], that the same value always gives the same bytes.
pub trait Codec {
    /// The canonical bytes of one change, if it can be encoded.
    fn encode(&self, change: &Change) -> Option<Vec<u8>>;

    /// The checksum over the canonical encoding of some changes, if they can be encoded.
    fn checksum(&self, changes: &Vec<Change>) -> Option<HexString>;

    /// The digest of a scope that holds these rows.
    fn digest(&self, rows: &Vec<RowState>) -> HexString;

    /// The checksum over the canonical encoding of a command's payload, if it can be encoded.
    fn payload(&self, json: &String) -> Option<HexString>;
}

/// What optional bytes hold.
pub open spec fn bytes_view(b: Option<Vec<u8>>) -> Option<Seq<u8>> {
    match b {
        Some(v) => Some(v@),
        None => None,
    }
}

/// What an optional hash says.
pub open spec fn hex_view(h: Option<HexString>) -> Option<Seq<char>> {
    match h {
        Some(v) => Some(v@),
        None => None,
    }
}

/// `codec` can encode a change that stands for `c` as `b`.
pub open spec fn may_encode<W: Codec>(codec: &W, c: ChangeView, b: Option<Seq<u8>>) -> bool {
    exists|x: Change, r: Option<Vec<u8>>|
        #![trigger call_ensures(W::encode, (codec, &x), r)]
        x@ == c && bytes_view(r) == b && call_ensures(W::encode, (codec, &x), r)
}

/// `codec` can give changes that stand for `cs` the checksum `h`.
pub open spec fn may_checksum<W: Codec>(
    codec: &W,
    cs: Seq<ChangeView>,
    h: Option<Seq<char>>,
) -> bool {
    exists|x: Vec<Change>, r: Option<HexString>|
        #![trigger call_ensures(W::checksum, (codec, &x), r)]
        change_views(x@) == cs && hex_view(r) == h && call_ensures(W::checksum, (codec, &x), r)
}

/// `codec` can give rows that stand for `rows` the digest `h`.
pub open spec fn may_digest<W: Codec>(codec: &W, rows: Seq<RowStateView>, h: Seq<char>) -> bool {
    exists|x: Vec<RowState>, r: HexString|
        #![trigger call_ensures(W::digest, (codec, &x), r)]
        row_views(x@) == rows && r@ == h && call_ensures(W::digest, (codec, &x), r)
}

/// `codec` can give a payload of this text the checksum `h`.
pub open spec fn may_weigh<W: Codec>(codec: &W, json: Seq<char>, h: Option<Seq<char>>) -> bool {
    exists|x: String, r: Option<HexString>|
        #![trigger call_ensures(W::payload, (codec, &x), r)]
        x@ == json && hex_view(r) == h && call_ensures(W::payload, (codec, &x), r)
}

/// The codec takes every value, and the same value always has the same outcome.
pub open spec fn is_function<W: Codec>(codec: &W) -> bool {
    &&& forall|x: Change| call_requires(W::encode, (codec, &x))
    &&& forall|x: Vec<Change>| call_requires(W::checksum, (codec, &x))
    &&& forall|x: Vec<RowState>| call_requires(W::digest, (codec, &x))
    &&& forall|x: String| call_requires(W::payload, (codec, &x))
    &&& forall|c: ChangeView, a: Option<Seq<u8>>, b: Option<Seq<u8>>|
        #[trigger] may_encode(codec, c, a) && #[trigger] may_encode(codec, c, b) ==> a == b
    &&& forall|c: Seq<ChangeView>, a: Option<Seq<char>>, b: Option<Seq<char>>|
        #[trigger] may_checksum(codec, c, a) && #[trigger] may_checksum(codec, c, b) ==> a == b
    &&& forall|c: Seq<RowStateView>, a: Seq<char>, b: Seq<char>|
        #[trigger] may_digest(codec, c, a) && #[trigger] may_digest(codec, c, b) ==> a == b
    &&& forall|c: Seq<char>, a: Option<Seq<char>>, b: Option<Seq<char>>|
        #[trigger] may_weigh(codec, c, a) && #[trigger] may_weigh(codec, c, b) ==> a == b
}

/// The canonical bytes of a change under `codec`.
pub open spec fn encoding<W: Codec>(codec: &W, c: ChangeView) -> Option<Seq<u8>> {
    choose|b: Option<Seq<u8>>| may_encode(codec, c, b)
}

/// The checksum of some changes under `codec`.
pub open spec fn checksum_of<W: Codec>(codec: &W, cs: Seq<ChangeView>) -> Option<Seq<char>> {
    choose|h: Option<Seq<char>>| may_checksum(codec, cs, h)
}

/// The digest of some rows under `codec`.
pub open spec fn digest_of<W: Codec>(codec: &W, rows: Seq<RowStateView>) -> Seq<char> {
    choose|h: Seq<char>| may_digest(codec, rows, h)
}

/// The checksum of a payload of this text under `codec`.
pub open spec fn payload_checksum<W: Codec>(codec: &W, json: Seq<char>) -> Option<Seq<char>> {
    choose|h: Option<Seq<char>>| may_weigh(codec, json, h)
}

/// The checksum that a payload carries is the one that its text has under `codec`.
pub open spec fn is_weighed<W: Codec>(codec: &W, payload: Payload) -> bool {
    payload.sum() == payload_checksum(codec, payload.text())
}

/// Encodes one change.
pub fn encode_with<W: Codec>(codec: &W, change: &Change) -> (b: Option<Vec<u8>>)
    requires
        is_function(codec),
    ensures
        bytes_view(b) == encoding(codec, change@),
{
    let b = codec.encode(change);
    assert(may_encode(codec, change@, bytes_view(b)));
    b
}

/// Checksums some changes.
pub fn checksum_with<W: Codec>(codec: &W, changes: &Vec<Change>) -> (h: Option<HexString>)
    requires
        is_function(codec),
    ensures
        hex_view(h) == checksum_of(codec, change_views(changes@)),
{
    let h = codec.checksum(changes);
    assert(may_checksum(codec, change_views(changes@), hex_view(h)));
    h
}

/// Digests some rows.
pub fn digest_with<W: Codec>(codec: &W, rows: &Vec<RowState>) -> (h: HexString)
    requires
        is_function(codec),
    ensures
        h@ == digest_of(codec, row_views(rows@)),
{
    let h = codec.digest(rows);
    assert(may_digest(codec, row_views(rows@), h@));
    h
}

/// Checksums a payload.
pub fn payload_with<W: Codec>(codec: &W, json: &String) -> (h: Option<HexString>)
    requires
        is_function(codec),
    ensures
        hex_view(h) == payload_checksum(codec, json@),
{
    let h = codec.payload(json);
    assert(may_weigh(codec, json@, hex_view(h)));
    h
}

} // verus!
