//! The values that travel between a device and the server.
//!
//! Names, snapshots and checksums are held as the text that the wire format's own constructors
//! accepted; turning a value into canonical bytes, and a hash of those bytes, happens outside
//! this crate, so a value that needs either carries the outcome along.
use crate::codec::{hex_view, is_function, is_weighed, payload_with, Codec};
use crate::ordered::{text_below, text_irreflexive, text_is_below, text_total, text_transitive, Key};
use crate::text::{hex_char, hex_digit};
use vstd::prelude::*;

verus! {

/// Why a value is not one the wire format allows.
#[derive(Debug, PartialEq, Eq)]
pub enum ProtocolError {
    /// A number that starts at one was zero.
    Zero,
    /// A command id whose version digit is not 7.
    NotVersionSeven,
    /// A rejection without a reason to show the user.
    RejectedWithoutReason,
    /// A text that the wire format's own constructor refused, with its reason.
    Invalid { detail: String },
}

impl Clone for ProtocolError {
    fn clone(&self) -> (copy: Self)
        ensures
            copy == *self,
    {
        match self {
            ProtocolError::Zero => ProtocolError::Zero,
            ProtocolError::NotVersionSeven => ProtocolError::NotVersionSeven,
            ProtocolError::RejectedWithoutReason => ProtocolError::RejectedWithoutReason,
            ProtocolError::Invalid { detail } => ProtocolError::Invalid { detail: detail.clone() },
        }
    }
}

/// A position in the change log. The log is shared by every scope, so one scope's positions are
/// sparse.
#[derive(Debug, Clone, Copy, PartialEq, Eq, Structural)]
pub struct SeqNo {
    pub value: u64,
}

impl SeqNo {
    /// Takes any number but zero.
    pub fn new(value: u64) -> (r: Result<Self, ProtocolError>)
        ensures
            value == 0 ==> r == Err::<Self, ProtocolError>(ProtocolError::Zero),
            value > 0 ==> r == Ok::<Self, ProtocolError>(SeqNo { value }),
    {
        if value == 0 {
            Err(ProtocolError::Zero)
        } else {
            Ok(SeqNo { value })
        }
    }

    /// The number itself.
    pub fn get(&self) -> (value: u64)
        ensures
            value == self.value,
    {
        self.value
    }
}

/// The server's version of a row. It alone decides which write is the last one.
#[derive(Debug, Clone, Copy, PartialEq, Eq, Structural)]
pub struct RowVersion {
    pub value: u64,
}

impl RowVersion {
    /// Takes any number but zero.
    pub fn new(value: u64) -> (r: Result<Self, ProtocolError>)
        ensures
            value == 0 ==> r == Err::<Self, ProtocolError>(ProtocolError::Zero),
            value > 0 ==> r == Ok::<Self, ProtocolError>(RowVersion { value }),
    {
        if value == 0 {
            Err(ProtocolError::Zero)
        } else {
            Ok(RowVersion { value })
        }
    }

    /// The number itself.
    pub fn get(&self) -> (value: u64)
        ensures
            value == self.value,
    {
        self.value
    }
}

/// The version of the schema that a snapshot was written under.
#[derive(Debug, Clone, Copy, PartialEq, Eq, Structural)]
pub struct SchemaVersion {
    pub value: u16,
}

impl SchemaVersion {
    /// Takes any number but zero.
    pub fn new(value: u16) -> (r: Result<Self, ProtocolError>)
        ensures
            value == 0 ==> r == Err::<Self, ProtocolError>(ProtocolError::Zero),
            value > 0 ==> r == Ok::<Self, ProtocolError>(SchemaVersion { value }),
    {
        if value == 0 {
            Err(ProtocolError::Zero)
        } else {
            Ok(SchemaVersion { value })
        }
    }

    /// The number itself.
    pub fn get(&self) -> (value: u16)
        ensures
            value == self.value,
    {
        self.value
    }
}

/// A version of the protocol.
#[derive(Debug, Clone, Copy, PartialEq, Eq, Structural)]
pub struct ProtocolVersion {
    pub value: u16,
}

impl ProtocolVersion {
    /// Takes any number but zero.
    pub fn new(value: u16) -> (r: Result<Self, ProtocolError>)
        ensures
            value == 0 ==> r == Err::<Self, ProtocolError>(ProtocolError::Zero),
            value > 0 ==> r == Ok::<Self, ProtocolError>(ProtocolVersion { value }),
    {
        if value == 0 {
            Err(ProtocolError::Zero)
        } else {
            Ok(ProtocolVersion { value })
        }
    }

    /// The number itself.
    pub fn get(&self) -> (value: u16)
        ensures
            value == self.value,
    {
        self.value
    }
}

/// How far a device has got in the change log of one scope: it has every change up to here.
#[derive(Debug, Clone, Copy, PartialEq, Eq, Structural)]
pub struct Cursor {
    pub position: u64,
}

impl Cursor {
    /// The cursor of a device that has nothing yet.
    pub fn start() -> (cursor: Cursor)
        ensures
            cursor.position == 0,
    {
        Cursor { position: 0 }
    }

    /// The position itself.
    pub fn get(&self) -> (position: u64)
        ensures
            position == self.position,
    {
        self.position
    }
}

/// The name of a scope: the unit of subscription and of authorization.
#[derive(Debug, PartialEq, Eq)]
pub struct ScopeId {
    pub text: String,
}

impl View for ScopeId {
    type V = Seq<char>;

    open spec fn view(&self) -> Seq<char> {
        self.text@
    }
}

impl Clone for ScopeId {
    fn clone(&self) -> (copy: Self)
        ensures
            copy == *self,
    {
        ScopeId { text: self.text.clone() }
    }
}

impl ScopeId {
    /// Holds a text as it stands.
    pub fn new(text: &str) -> (r: Self)
        ensures
            r@ == text@,
    {
        ScopeId { text: text.to_owned() }
    }

    /// The text itself.
    pub fn as_str(&self) -> (text: &str)
        ensures
            text@ == self@,
    {
        self.text.as_str()
    }
}

impl Key for ScopeId {
    type Model = Seq<char>;

    open spec fn model(&self) -> Seq<char> {
        self@
    }

    open spec fn below(a: Seq<char>, b: Seq<char>) -> bool {
        text_below(a, b)
    }

    proof fn irreflexive(a: Seq<char>) {
        text_irreflexive(a);
    }

    proof fn transitive(a: Seq<char>, b: Seq<char>, c: Seq<char>) {
        text_transitive(a, b, c);
    }

    proof fn total(a: Seq<char>, b: Seq<char>) {
        text_total(a, b);
    }

    fn is_below(&self, other: &Self) -> (r: bool) {
        text_is_below(self.text.as_str(), other.text.as_str())
    }

    fn same(&self, other: &Self) -> (r: bool) {
        self.text == other.text
    }
}

/// The name of an entity, a kind of row.
#[derive(Debug, PartialEq, Eq)]
pub struct EntityName {
    pub text: String,
}

impl View for EntityName {
    type V = Seq<char>;

    open spec fn view(&self) -> Seq<char> {
        self.text@
    }
}

impl Clone for EntityName {
    fn clone(&self) -> (copy: Self)
        ensures
            copy == *self,
    {
        EntityName { text: self.text.clone() }
    }
}

impl EntityName {
    /// Holds a text as it stands.
    pub fn new(text: &str) -> (r: Self)
        ensures
            r@ == text@,
    {
        EntityName { text: text.to_owned() }
    }

    /// The text itself.
    pub fn as_str(&self) -> (text: &str)
        ensures
            text@ == self@,
    {
        self.text.as_str()
    }
}

impl Key for EntityName {
    type Model = Seq<char>;

    open spec fn model(&self) -> Seq<char> {
        self@
    }

    open spec fn below(a: Seq<char>, b: Seq<char>) -> bool {
        text_below(a, b)
    }

    proof fn irreflexive(a: Seq<char>) {
        text_irreflexive(a);
    }

    proof fn transitive(a: Seq<char>, b: Seq<char>, c: Seq<char>) {
        text_transitive(a, b, c);
    }

    proof fn total(a: Seq<char>, b: Seq<char>) {
        text_total(a, b);
    }

    fn is_below(&self, other: &Self) -> (r: bool) {
        text_is_below(self.text.as_str(), other.text.as_str())
    }

    fn same(&self, other: &Self) -> (r: bool) {
        self.text == other.text
    }
}

/// The identifier of a row within its entity.
#[derive(Debug, PartialEq, Eq)]
pub struct EntityId {
    pub text: String,
}

impl View for EntityId {
    type V = Seq<char>;

    open spec fn view(&self) -> Seq<char> {
        self.text@
    }
}

impl Clone for EntityId {
    fn clone(&self) -> (copy: Self)
        ensures
            copy == *self,
    {
        EntityId { text: self.text.clone() }
    }
}

impl EntityId {
    /// Holds a text as it stands.
    pub fn new(text: &str) -> (r: Self)
        ensures
            r@ == text@,
    {
        EntityId { text: text.to_owned() }
    }

    /// The text itself.
    pub fn as_str(&self) -> (text: &str)
        ensures
            text@ == self@,
    {
        self.text.as_str()
    }
}

/// The name of a command.
#[derive(Debug, PartialEq, Eq)]
pub struct CommandName {
    pub text: String,
}

impl View for CommandName {
    type V = Seq<char>;

    open spec fn view(&self) -> Seq<char> {
        self.text@
    }
}

impl Clone for CommandName {
    fn clone(&self) -> (copy: Self)
        ensures
            copy == *self,
    {
        CommandName { text: self.text.clone() }
    }
}

impl CommandName {
    /// Holds a text as it stands.
    pub fn new(text: &str) -> (r: Self)
        ensures
            r@ == text@,
    {
        CommandName { text: text.to_owned() }
    }

    /// The text itself.
    pub fn as_str(&self) -> (text: &str)
        ensures
            text@ == self@,
    {
        self.text.as_str()
    }
}

impl Key for CommandName {
    type Model = Seq<char>;

    open spec fn model(&self) -> Seq<char> {
        self@
    }

    open spec fn below(a: Seq<char>, b: Seq<char>) -> bool {
        text_below(a, b)
    }

    proof fn irreflexive(a: Seq<char>) {
        text_irreflexive(a);
    }

    proof fn transitive(a: Seq<char>, b: Seq<char>, c: Seq<char>) {
        text_transitive(a, b, c);
    }

    proof fn total(a: Seq<char>, b: Seq<char>) {
        text_total(a, b);
    }

    fn is_below(&self, other: &Self) -> (r: bool) {
        text_is_below(self.text.as_str(), other.text.as_str())
    }

    fn same(&self, other: &Self) -> (r: bool) {
        self.text == other.text
    }
}

/// Why a command was refused, in words for the user.
#[derive(Debug, PartialEq, Eq)]
pub struct Reason {
    pub text: String,
}

impl View for Reason {
    type V = Seq<char>;

    open spec fn view(&self) -> Seq<char> {
        self.text@
    }
}

impl Clone for Reason {
    fn clone(&self) -> (copy: Self)
        ensures
            copy == *self,
    {
        Reason { text: self.text.clone() }
    }
}

impl Reason {
    /// Holds a text as it stands.
    pub fn new(text: &str) -> (r: Self)
        ensures
            r@ == text@,
    {
        Reason { text: text.to_owned() }
    }

    /// The text itself.
    pub fn as_str(&self) -> (text: &str)
        ensures
            text@ == self@,
    {
        self.text.as_str()
    }
}

/// A checksum or digest in hexadecimal.
#[derive(Debug, PartialEq, Eq)]
pub struct HexString {
    pub text: String,
}

impl View for HexString {
    type V = Seq<char>;

    open spec fn view(&self) -> Seq<char> {
        self.text@
    }
}

impl Clone for HexString {
    fn clone(&self) -> (copy: Self)
        ensures
            copy == *self,
    {
        HexString { text: self.text.clone() }
    }
}

impl HexString {
    /// Holds a text as it stands.
    pub fn new(text: &str) -> (r: Self)
        ensures
            r@ == text@,
    {
        HexString { text: text.to_owned() }
    }

    /// The text itself.
    pub fn as_str(&self) -> (text: &str)
        ensures
            text@ == self@,
    {
        self.text.as_str()
    }
}

/// The content of a row, as JSON text.
#[derive(Debug, PartialEq, Eq)]
pub struct Snapshot {
    pub text: String,
}

impl View for Snapshot {
    type V = Seq<char>;

    open spec fn view(&self) -> Seq<char> {
        self.text@
    }
}

impl Clone for Snapshot {
    fn clone(&self) -> (copy: Self)
        ensures
            copy == *self,
    {
        Snapshot { text: self.text.clone() }
    }
}

impl Snapshot {
    /// Holds a text as it stands.
    pub fn new(text: &str) -> (r: Self)
        ensures
            r@ == text@,
    {
        Snapshot { text: text.to_owned() }
    }

    /// The text itself.
    pub fn as_str(&self) -> (text: &str)
        ensures
            text@ == self@,
    {
        self.text.as_str()
    }
}

/// Identifies one row. An entity belongs to exactly one scope, so this is unique.
#[derive(Debug, PartialEq, Eq)]
pub struct RowKey {
    pub entity: EntityName,
    pub entity_id: EntityId,
}

impl View for RowKey {
    type V = (Seq<char>, Seq<char>);

    open spec fn view(&self) -> (Seq<char>, Seq<char>) {
        (self.entity@, self.entity_id@)
    }
}

impl Clone for RowKey {
    fn clone(&self) -> (copy: Self)
        ensures
            copy == *self,
    {
        RowKey { entity: self.entity.clone(), entity_id: self.entity_id.clone() }
    }
}

impl Key for RowKey {
    type Model = (Seq<char>, Seq<char>);

    open spec fn model(&self) -> (Seq<char>, Seq<char>) {
        self@
    }

    open spec fn below(a: (Seq<char>, Seq<char>), b: (Seq<char>, Seq<char>)) -> bool {
        text_below(a.0, b.0) || a.0 == b.0 && text_below(a.1, b.1)
    }

    proof fn irreflexive(a: (Seq<char>, Seq<char>)) {
        text_irreflexive(a.0);
        text_irreflexive(a.1);
    }

    proof fn transitive(
        a: (Seq<char>, Seq<char>),
        b: (Seq<char>, Seq<char>),
        c: (Seq<char>, Seq<char>),
    ) {
        if text_below(a.0, b.0) && text_below(b.0, c.0) {
            text_transitive(a.0, b.0, c.0);
        }
        if text_below(a.1, b.1) && text_below(b.1, c.1) {
            text_transitive(a.1, b.1, c.1);
        }
    }

    proof fn total(a: (Seq<char>, Seq<char>), b: (Seq<char>, Seq<char>)) {
        text_total(a.0, b.0);
        text_total(a.1, b.1);
    }

    fn is_below(&self, other: &Self) -> (r: bool) {
        if self.entity.text == other.entity.text {
            proof {
                text_irreflexive(self.entity@);
            }
            text_is_below(self.entity_id.text.as_str(), other.entity_id.text.as_str())
        } else {
            text_is_below(self.entity.text.as_str(), other.entity.text.as_str())
        }
    }

    fn same(&self, other: &Self) -> (r: bool) {
        self.entity.text == other.entity.text && self.entity_id.text == other.entity_id.text
    }
}

/// What a command carries: JSON text, and the checksum over its canonical encoding, taken when the
/// payload is made. There is no checksum when the content cannot be encoded.
#[derive(Debug, PartialEq, Eq)]
pub struct Payload {
    json: String,
    checksum: Option<HexString>,
}

impl Payload {
    /// The text.
    pub closed spec fn text(&self) -> Seq<char> {
        self.json@
    }

    /// The checksum, where the text can be encoded.
    pub closed spec fn sum(&self) -> Option<Seq<char>> {
        hex_view(self.checksum)
    }

    /// The payload of this text, with the checksum that the codec gives it.
    pub fn new<W: Codec>(json: String, codec: &W) -> (p: Self)
        requires
            is_function(codec),
        ensures
            p.text() == json@,
            is_weighed(codec, p),
    {
        let checksum: Option<HexString> = payload_with(codec, &json);
        Payload { json, checksum }
    }

    /// The text.
    pub fn json(&self) -> (s: &String)
        ensures
            s@ == self.text(),
    {
        &self.json
    }

    /// The checksum, where the text can be encoded.
    pub fn checksum(&self) -> (h: Option<&HexString>)
        ensures
            match h {
                Some(x) => self.sum() == Some(x@),
                None => self.sum() is None,
            },
    {
        match &self.checksum {
            Some(x) => Some(x),
            None => None,
        }
    }
}

impl Clone for Payload {
    fn clone(&self) -> (copy: Self)
        ensures
            copy == *self,
    {
        Payload {
            json: self.json.clone(),
            checksum: match &self.checksum {
                Some(c) => Some(c.clone()),
                None => None,
            },
        }
    }
}

/// What happened to a row.
#[derive(Debug, Clone, Copy, PartialEq, Eq, Structural)]
pub enum Op {
    /// The row has this content now.
    Upsert,
    /// The row is gone.
    Delete,
}

/// One entry of the change log.
#[derive(Debug, PartialEq, Eq)]
pub struct Change {
    pub seq: SeqNo,
    pub entity: EntityName,
    pub entity_id: EntityId,
    pub op: Op,
    pub snapshot: Option<Snapshot>,
    pub row_version: RowVersion,
    pub schema_version: SchemaVersion,
}

/// A change, with its texts as sequences of characters.
pub struct ChangeView {
    pub seq: u64,
    pub row: (Seq<char>, Seq<char>),
    pub op: Op,
    pub snapshot: Option<Seq<char>>,
    pub row_version: u64,
    pub schema_version: u16,
}

/// What an optional text holds.
pub open spec fn snapshot_text(s: Option<Snapshot>) -> Option<Seq<char>> {
    match s {
        Some(x) => Some(x@),
        None => None,
    }
}

/// What an optional reason says.
pub open spec fn reason_text(s: Option<Reason>) -> Option<Seq<char>> {
    match s {
        Some(x) => Some(x@),
        None => None,
    }
}

impl View for Change {
    type V = ChangeView;

    open spec fn view(&self) -> ChangeView {
        ChangeView {
            seq: self.seq.value,
            row: (self.entity@, self.entity_id@),
            op: self.op,
            snapshot: snapshot_text(self.snapshot),
            row_version: self.row_version.value,
            schema_version: self.schema_version.value,
        }
    }
}

impl Clone for Change {
    fn clone(&self) -> (copy: Self)
        ensures
            copy == *self,
    {
        Change {
            seq: self.seq,
            entity: self.entity.clone(),
            entity_id: self.entity_id.clone(),
            op: self.op,
            snapshot: match &self.snapshot {
                Some(s) => Some(s.clone()),
                None => None,
            },
            row_version: self.row_version,
            schema_version: self.schema_version,
        }
    }
}

/// Some changes, as what they stand for.
pub open spec fn change_views(changes: Seq<Change>) -> Seq<ChangeView> {
    changes.map_values(|c: Change| c@)
}

/// The identifier of a command: 128 bits, the digit of the version being 7.
#[derive(Debug, Clone, Copy, PartialEq, Eq, PartialOrd, Ord, Structural)]
pub struct CommandId {
    pub raw: u128,
}

/// The number that bytes are, the first byte being the most significant.
pub open spec fn big_endian(bytes: Seq<u8>) -> nat
    decreases bytes.len(),
{
    if bytes.len() == 0 {
        0
    } else {
        big_endian(bytes.drop_last()) * 256 + bytes.last() as nat
    }
}

spec fn bytes_limit(n: nat) -> nat
    decreases n,
{
    if n == 0 {
        1
    } else {
        256 * bytes_limit((n - 1) as nat)
    }
}

proof fn big_endian_limit(bytes: Seq<u8>)
    ensures
        big_endian(bytes) < bytes_limit(bytes.len()),
    decreases bytes.len(),
{
    if bytes.len() > 0 {
        big_endian_limit(bytes.drop_last());
    }
}

proof fn sixteen_bytes(n: nat)
    requires
        n <= 16,
    ensures
        bytes_limit(n) <= 0x1_0000_0000_0000_0000_0000_0000_0000_0000,
    decreases 16 - n,
{
    reveal_with_fuel(bytes_limit, 17);
    if n < 16 {
        sixteen_bytes(n + 1);
    }
}

impl CommandId {
    /// The id made of 16 bytes, provided that its version digit is 7.
    pub fn from_bytes(bytes: [u8; 16]) -> (r: Result<Self, ProtocolError>)
        ensures
            bytes@[6] / 16 != 7 ==> r == Err::<Self, ProtocolError>(ProtocolError::NotVersionSeven),
            bytes@[6] / 16 == 7 ==> (r matches Ok(id) && id.raw == big_endian(bytes@)),
    {
        if bytes[6] / 16 != 7 {
            return Err(ProtocolError::NotVersionSeven);
        }
        let mut raw: u128 = 0;
        let mut i: usize = 0;
        while i < 16
            invariant
                i <= 16,
                bytes@.len() == 16,
                raw == big_endian(bytes@.take(i as int)),
            decreases 16 - i,
        {
            let ghost next = bytes@.take(i + 1);
            proof {
                assert(next.drop_last() == bytes@.take(i as int));
                assert(next.last() == bytes@[i as int]);
                big_endian_limit(next);
                sixteen_bytes((i + 1) as nat);
            }
            raw = raw * 256 + bytes[i] as u128;
            i = i + 1;
        }
        assert(bytes@.take(16) == bytes@);
        Ok(CommandId { raw })
    }

    /// The last byte of the id.
    pub fn last_byte(&self) -> (b: u8)
        ensures
            b == self.raw % 256,
    {
        (self.raw % 256) as u8
    }

    /// The id in its usual form: 32 hexadecimal digits in groups of 8, 4, 4, 4 and 12.
    pub fn text(&self) -> (s: String)
        ensures
            s@ == id_text(self.raw),
    {
        let mut s: String = String::new();
        let mut j: usize = 0;
        while j < 36
            invariant
                j <= 36,
                s@ == id_text(self.raw).take(j as int),
            decreases 36 - j,
        {
            let c: char = if j == 8 || j == 13 || j == 18 || j == 23 {
                '-'
            } else {
                let dashes: u128 = if j < 8 {
                    0
                } else if j < 13 {
                    1
                } else if j < 18 {
                    2
                } else if j < 23 {
                    3
                } else {
                    4
                };
                let shift: u128 = 4 * (31 + dashes - j as u128);
                let nibble: u128 = (self.raw >> shift) % 16;
                hex_char(nibble as u8)
            };
            s.push(c);
            assert(id_text(self.raw).take(j + 1) == id_text(self.raw).take(j as int).push(c));
            j = j + 1;
        }
        assert(id_text(self.raw).take(36) == id_text(self.raw));
        s
    }
}

/// How many dashes stand before place `j` of an id's text.
pub open spec fn dashes_before(j: int) -> int {
    (if j > 8 { 1int } else { 0 }) + (if j > 13 { 1int } else { 0 }) + (if j > 18 { 1int } else { 0 })
        + (if j > 23 { 1int } else { 0 })
}

/// The usual form of a 128-bit id.
pub open spec fn id_text(raw: u128) -> Seq<char> {
    Seq::new(
        36,
        |j: int|
            if j == 8 || j == 13 || j == 18 || j == 23 {
                '-'
            } else {
                hex_digit(((raw >> ((4 * (31 - (j - dashes_before(j)))) as u128)) % 16) as int)
            },
    )
}

impl Key for CommandId {
    type Model = u128;

    open spec fn model(&self) -> u128 {
        self.raw
    }

    open spec fn below(a: u128, b: u128) -> bool {
        a < b
    }

    proof fn irreflexive(a: u128) {
    }

    proof fn transitive(a: u128, b: u128, c: u128) {
    }

    proof fn total(a: u128, b: u128) {
    }

    fn is_below(&self, other: &Self) -> (r: bool) {
        self.raw < other.raw
    }

    fn same(&self, other: &Self) -> (r: bool) {
        self.raw == other.raw
    }
}

/// Something a device asks the server to do.
#[derive(Debug, PartialEq, Eq)]
pub struct Command {
    pub id: CommandId,
    pub name: CommandName,
    pub scope: ScopeId,
    pub payload: Payload,
    /// The device's own clock. Advisory: nothing decides a conflict on it.
    pub client_ts: i64,
    pub checksum: HexString,
}

impl Clone for Command {
    fn clone(&self) -> (copy: Self)
        ensures
            copy == *self,
    {
        Command {
            id: self.id,
            name: self.name.clone(),
            scope: self.scope.clone(),
            payload: self.payload.clone(),
            client_ts: self.client_ts,
            checksum: self.checksum.clone(),
        }
    }
}

/// What became of a command.
#[derive(Debug, Clone, Copy, PartialEq, Eq, Structural)]
pub enum Status {
    /// It took effect.
    Applied,
    /// It was refused, for a reason.
    Rejected,
    /// A later write had already replaced what it would have written.
    Superseded,
}

/// The server's answer to one command.
#[derive(Debug, PartialEq, Eq)]
pub struct CommandResult {
    pub id: CommandId,
    pub status: Status,
    pub reason: Option<Reason>,
    pub server_seq: Option<SeqNo>,
}

/// An answer, with its reason as a sequence of characters.
pub struct ResultView {
    pub id: u128,
    pub status: Status,
    pub reason: Option<Seq<char>>,
    pub server_seq: Option<SeqNo>,
}

impl View for CommandResult {
    type V = ResultView;

    open spec fn view(&self) -> ResultView {
        ResultView {
            id: self.id.raw,
            status: self.status,
            reason: reason_text(self.reason),
            server_seq: self.server_seq,
        }
    }
}

impl Clone for CommandResult {
    fn clone(&self) -> (copy: Self)
        ensures
            copy == *self,
    {
        CommandResult {
            id: self.id,
            status: self.status,
            reason: match &self.reason {
                Some(r) => Some(r.clone()),
                None => None,
            },
            server_seq: self.server_seq,
        }
    }
}

/// Some answers, as what they say.
pub open spec fn result_views(results: Seq<CommandResult>) -> Seq<ResultView> {
    results.map_values(|r: CommandResult| r@)
}

/// One scope of a pull request: where the device has got to.
#[derive(Debug, PartialEq, Eq)]
pub struct ScopeCursor {
    pub scope: ScopeId,
    pub cursor: Cursor,
}

/// A device asks for what came after its cursors.
#[derive(Debug, PartialEq, Eq)]
pub struct PullRequest {
    pub protocol: ProtocolVersion,
    pub scopes: Vec<ScopeCursor>,
    /// How many bytes the device would like at most. A hint: the server may send more or fewer.
    pub limit_bytes: Option<u64>,
}

/// A device without a scope's history asks for the current state of it.
#[derive(Debug, PartialEq, Eq)]
pub struct BootstrapRequest {
    pub protocol: ProtocolVersion,
    pub scope: ScopeId,
    /// Where an earlier bootstrap got to; the start at first.
    pub after: Cursor,
}

/// A run of changes of one scope.
#[derive(Debug, PartialEq, Eq)]
pub struct Batch {
    pub scope: ScopeId,
    pub changes: Vec<Change>,
    /// Where the device stands once it has applied the changes.
    pub next_cursor: Cursor,
    /// Whether there is more to ask for.
    pub has_more: bool,
    pub checksum: HexString,
    /// The server's digest of the scope.
    pub digest: HexString,
}

/// A batch, with its texts as sequences of characters.
pub struct BatchView {
    pub scope: Seq<char>,
    pub changes: Seq<ChangeView>,
    pub next_cursor: u64,
    pub has_more: bool,
    pub checksum: Seq<char>,
    pub digest: Seq<char>,
}

impl View for Batch {
    type V = BatchView;

    open spec fn view(&self) -> BatchView {
        BatchView {
            scope: self.scope@,
            changes: change_views(self.changes@),
            next_cursor: self.next_cursor.position,
            has_more: self.has_more,
            checksum: self.checksum@,
            digest: self.digest@,
        }
    }
}

impl Clone for Batch {
    fn clone(&self) -> (copy: Self)
        ensures
            copy@ == self@,
    {
        let copy = Batch {
            scope: self.scope.clone(),
            changes: self.changes.clone(),
            next_cursor: self.next_cursor,
            has_more: self.has_more,
            checksum: self.checksum.clone(),
            digest: self.digest.clone(),
        };
        assert(copy.changes@ =~= self.changes@);
        copy
    }
}

/// Some batches, as what they hold.
pub open spec fn batch_views(batches: Seq<Batch>) -> Seq<BatchView> {
    batches.map_values(|b: Batch| b@)
}

/// One batch for each scope that was asked for.
#[derive(Debug, PartialEq, Eq)]
pub struct PullResponse {
    pub protocol: ProtocolVersion,
    pub batches: Vec<Batch>,
}

impl Clone for PullResponse {
    fn clone(&self) -> (copy: Self)
        ensures
            copy.protocol == self.protocol,
            batch_views(copy.batches@) == batch_views(self.batches@),
    {
        let copy = PullResponse { protocol: self.protocol, batches: self.batches.clone() };
        assert(batch_views(copy.batches@) =~= batch_views(self.batches@)) by {
            assert forall|i: int| 0 <= i < self.batches@.len() implies copy.batches@[i]@
                == self.batches@[i]@ by {
                assert(cloned(self.batches@[i], copy.batches@[i]));
            }
        }
        copy
    }
}

/// A device hands in its queued commands.
#[derive(Debug, PartialEq, Eq)]
pub struct PushRequest {
    pub protocol: ProtocolVersion,
    pub commands: Vec<Command>,
}

/// The answers to some of the commands handed in.
#[derive(Debug, PartialEq, Eq)]
pub struct PushResponse {
    pub protocol: ProtocolVersion,
    pub results: Vec<CommandResult>,
}

impl Clone for PushResponse {
    fn clone(&self) -> (copy: Self)
        ensures
            copy.protocol == self.protocol,
            result_views(copy.results@) == result_views(self.results@),
    {
        let copy = PushResponse { protocol: self.protocol, results: self.results.clone() };
        assert(copy.results@ =~= self.results@);
        copy
    }
}

proof fn same_digit(a: u128, b: u128, j: int, shift: u128)
    requires
        id_text(a) == id_text(b),
        0 <= j < 36,
        !(j == 8 || j == 13 || j == 18 || j == 23),
        shift == 4 * (31 - (j - dashes_before(j))),
    ensures
        (a >> shift) % 16 == (b >> shift) % 16,
{
    assert(id_text(a)[j] == id_text(b)[j]);
    let x = ((a >> shift) % 16) as int;
    let y = ((b >> shift) % 16) as int;
    assert((4 * (31 - (j - dashes_before(j)))) as u128 == shift);
    assert(id_text(a)[j] == hex_digit(x));
    assert(id_text(b)[j] == hex_digit(y));
    assert(0 <= x < 16 && 0 <= y < 16);
}

/// No two ids have the same text, so a record that is found by the text of an id is the record of
/// that id. The text has 36 characters, with dashes at the usual four places.
pub proof fn an_id_is_known_by_its_text(a: u128, b: u128)
    requires
        id_text(a) == id_text(b),
    ensures
        a == b,
        id_text(a).len() == 36,
        id_text(a)[8] == '-' && id_text(a)[13] == '-' && id_text(a)[18] == '-' && id_text(a)[23]
            == '-',
{
    same_digit(a, b, 35, 0);
    same_digit(a, b, 34, 4);
    same_digit(a, b, 33, 8);
    same_digit(a, b, 32, 12);
    same_digit(a, b, 31, 16);
    same_digit(a, b, 30, 20);
    same_digit(a, b, 29, 24);
    same_digit(a, b, 28, 28);
    same_digit(a, b, 27, 32);
    same_digit(a, b, 26, 36);
    same_digit(a, b, 25, 40);
    same_digit(a, b, 24, 44);
    same_digit(a, b, 22, 48);
    same_digit(a, b, 21, 52);
    same_digit(a, b, 20, 56);
    same_digit(a, b, 19, 60);
    same_digit(a, b, 17, 64);
    same_digit(a, b, 16, 68);
    same_digit(a, b, 15, 72);
    same_digit(a, b, 14, 76);
    same_digit(a, b, 12, 80);
    same_digit(a, b, 11, 84);
    same_digit(a, b, 10, 88);
    same_digit(a, b, 9, 92);
    same_digit(a, b, 7, 96);
    same_digit(a, b, 6, 100);
    same_digit(a, b, 5, 104);
    same_digit(a, b, 4, 108);
    same_digit(a, b, 3, 112);
    same_digit(a, b, 2, 116);
    same_digit(a, b, 1, 120);
    same_digit(a, b, 0, 124);
    assert(a == b) by (bit_vector)
        requires
            (a >> 0u128) % 16 == (b >> 0u128) % 16,
            (a >> 4u128) % 16 == (b >> 4u128) % 16,
            (a >> 8u128) % 16 == (b >> 8u128) % 16,
            (a >> 12u128) % 16 == (b >> 12u128) % 16,
            (a >> 16u128) % 16 == (b >> 16u128) % 16,
            (a >> 20u128) % 16 == (b >> 20u128) % 16,
            (a >> 24u128) % 16 == (b >> 24u128) % 16,
            (a >> 28u128) % 16 == (b >> 28u128) % 16,
            (a >> 32u128) % 16 == (b >> 32u128) % 16,
            (a >> 36u128) % 16 == (b >> 36u128) % 16,
            (a >> 40u128) % 16 == (b >> 40u128) % 16,
            (a >> 44u128) % 16 == (b >> 44u128) % 16,
            (a >> 48u128) % 16 == (b >> 48u128) % 16,
            (a >> 52u128) % 16 == (b >> 52u128) % 16,
            (a >> 56u128) % 16 == (b >> 56u128) % 16,
            (a >> 60u128) % 16 == (b >> 60u128) % 16,
            (a >> 64u128) % 16 == (b >> 64u128) % 16,
            (a >> 68u128) % 16 == (b >> 68u128) % 16,
            (a >> 72u128) % 16 == (b >> 72u128) % 16,
            (a >> 76u128) % 16 == (b >> 76u128) % 16,
            (a >> 80u128) % 16 == (b >> 80u128) % 16,
            (a >> 84u128) % 16 == (b >> 84u128) % 16,
            (a >> 88u128) % 16 == (b >> 88u128) % 16,
            (a >> 92u128) % 16 == (b >> 92u128) % 16,
            (a >> 96u128) % 16 == (b >> 96u128) % 16,
            (a >> 100u128) % 16 == (b >> 100u128) % 16,
            (a >> 104u128) % 16 == (b >> 104u128) % 16,
            (a >> 108u128) % 16 == (b >> 108u128) % 16,
            (a >> 112u128) % 16 == (b >> 112u128) % 16,
            (a >> 116u128) % 16 == (b >> 116u128) % 16,
            (a >> 120u128) % 16 == (b >> 120u128) % 16,
            (a >> 124u128) % 16 == (b >> 124u128) % 16,
    ;
}

} // verus!
