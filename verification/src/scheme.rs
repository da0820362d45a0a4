//! The document envelope and its blocks, with the round-trip JSON codec:
//! a document carries a creation timestamp, a format version string and an
//! ordered list of typed content blocks.

use vstd::prelude::*;

use crate::header::{header_tag, HeaderData, HeaderDataV};
use crate::json::{
    chars_of, dec_digits, escape_string, jv, jv_list, jv_members, lemma_jv_list_pointwise,
    is_digit, is_ws, lemma_escape_ordinary, lemma_parse_escaped_string, lemma_parse_number_seg,
    lemma_seg_char, lemma_seg_inner, lemma_seg_split, lookup, lookup_from, obj_get,
    parse_value_exec, push_escaped, push_str, push_u64, seg, spec_parse_arr_body,
    spec_parse_items, spec_parse_members, spec_parse_number, spec_parse_obj_body,
    spec_parse_string_body,
    spec_parse_value, str_eq, string_from_chars, ws_end, ws_end_exec, JsonV, JsonValue,
};
use crate::paragraph::{paragraph_tag, ParagraphData, ParagraphDataV};

verus! {

broadcast use vstd::string::group_string_axioms;

/// The format version string this codec writes.
pub open spec fn version_text() -> Seq<char> {
    "2.12.4"@
}

/// The format version string this codec writes.
pub fn version_str() -> (r: &'static str)
    ensures
        r@ == version_text(),
{
    "2.12.4"
}

/// Mathematical model of a block payload.
#[verifier::ext_equal]
pub ghost enum BlockDataV {
    Header(HeaderDataV),
    Paragraph(ParagraphDataV),
}

/// The canonical tag of a payload's variant. Every variant has exactly one
/// tag and no two variants share one.
pub open spec fn tag_of(d: BlockDataV) -> Seq<char> {
    match d {
        BlockDataV::Header(_) => header_tag(),
        BlockDataV::Paragraph(_) => paragraph_tag(),
    }
}

/// A block payload: one variant per supported block kind.
#[derive(Clone, Debug, PartialEq, Eq)]
pub enum BlockData {
    Header(HeaderData),
    Paragraph(ParagraphData),
}

impl View for BlockData {
    type V = BlockDataV;

    open spec fn view(&self) -> BlockDataV {
        match self {
            BlockData::Header(h) => BlockDataV::Header(h@),
            BlockData::Paragraph(p) => BlockDataV::Paragraph(p@),
        }
    }
}

impl BlockData {
    /// The canonical tag string of this payload's variant.
    pub fn tag(&self) -> (r: &'static str)
        ensures
            r@ == tag_of(self@),
    {
        match self {
            BlockData::Header(_) => "header",
            BlockData::Paragraph(_) => "paragraph",
        }
    }
}

/// Mathematical model of a block.
#[verifier::ext_equal]
pub ghost struct BlockV {
    pub id: Seq<char>,
    pub tag: Seq<char>,
    pub data: BlockDataV,
}

impl BlockV {
    /// The stored tag equals the tag derived from the payload's variant.
    pub open spec fn wf(self) -> bool {
        self.tag == tag_of(self.data)
    }
}

/// One content block: an identifier, the tag of its payload's variant, and
/// the payload itself. Immutable once constructed.
#[derive(Clone, Debug, PartialEq, Eq)]
pub struct Block {
    id: String,
    tag: String,
    data: BlockData,
}

impl View for Block {
    type V = BlockV;

    closed spec fn view(&self) -> BlockV {
        BlockV { id: self.id@, tag: self.tag@, data: self.data@ }
    }
}

/// True of the characters an identifier is drawn from: ASCII letters and
/// digits.
pub open spec fn is_id_char(c: char) -> bool {
    (48 <= c as u32 && c as u32 <= 57) || (65 <= c as u32 && c as u32 <= 90) || (97 <= c as u32
        && c as u32 <= 122)
}

/// Relies on rand's `Alphanumeric` distribution: sampling it yields one
/// byte out of the ASCII letters and digits.
#[verifier::external_body]
fn sample_alphanumeric() -> (c: char)
    ensures
        is_id_char(c),
{
    let b: u8 = rand::Rng::sample(&mut rand::thread_rng(), rand::distributions::Alphanumeric);
    char::from(b)
}

impl Block {
    /// A fresh opaque identifier: ten characters drawn pseudorandomly from
    /// the alphanumeric alphabet.
    pub fn generate_id() -> (r: String)
        ensures
            r@.len() == 10,
            forall|i: int| 0 <= i < r@.len() ==> is_id_char(#[trigger] r@[i]),
    {
        let mut chars: Vec<char> = Vec::new();
        let mut i: usize = 0;
        while i < 10
            invariant
                i <= 10,
                chars@.len() == i,
                forall|j: int| 0 <= j < chars@.len() ==> is_id_char(#[trigger] chars@[j]),
            decreases 10 - i,
        {
            chars.push(sample_alphanumeric());
            i = i + 1;
        }
        string_from_chars(&chars)
    }

    /// Wraps a payload in a block: the identifier is freshly generated and
    /// the tag is derived from the payload's variant.
    pub fn new(data: BlockData) -> (r: Self)
        ensures
            r@.data == data@,
            r@.tag == tag_of(data@),
            r@.wf(),
            r@.id.len() == 10,
            forall|i: int| 0 <= i < r@.id.len() ==> is_id_char(#[trigger] r@.id[i]),
    {
        let id = Self::generate_id();
        let tag = String::from_str(data.tag());
        Block { id, tag, data }
    }

    /// Wraps a payload in a block under a caller-supplied identifier; the
    /// tag is still derived from the payload's variant.
    pub fn with_id(id: String, data: BlockData) -> (r: Self)
        ensures
            r@.data == data@,
            r@.tag == tag_of(data@),
            r@.id == id@,
            r@.wf(),
    {
        let tag = String::from_str(data.tag());
        Block { id, tag, data }
    }

    /// This block's identifier.
    pub fn id(&self) -> (r: String)
        ensures
            r@ == self@.id,
    {
        self.id.clone()
    }

    /// This block's stored tag.
    pub fn tag(&self) -> (r: String)
        ensures
            r@ == self@.tag,
    {
        self.tag.clone()
    }

    /// This block's payload.
    pub fn data(&self) -> (r: &BlockData)
        ensures
            r@ == self@.data,
    {
        &self.data
    }
}

/// How the codec can fail.
#[derive(Clone, Copy, Debug, PartialEq, Eq, Structural)]
pub enum Error {
    /// The input is not well-formed JSON of the subset this format uses.
    InvalidJson,
    /// The top level is not an object, or `time`, `version` or `blocks` is
    /// absent or of the wrong shape.
    MalformedEnvelope,
    /// The block at this position carries a tag that matches no registered
    /// variant.
    UnknownBlockType { index: usize },
    /// The block at this position is not an object of `id`, `type` and
    /// `data`, or its payload does not decode as the shape its tag demands.
    PayloadShapeMismatch { index: usize },
    /// The system clock could not be read at document construction.
    ClockUnavailable,
}

/// Mathematical model of a document.
#[verifier::ext_equal]
pub ghost struct SchemeV {
    pub time: u64,
    pub version: Seq<char>,
    pub blocks: Seq<BlockV>,
}

impl SchemeV {
    /// Every block's stored tag is the one derived from its payload.
    pub open spec fn wf(self) -> bool {
        forall|i: int| 0 <= i < self.blocks.len() ==> (#[trigger] self.blocks[i]).wf()
    }
}

/// The top-level document: a creation timestamp in milliseconds since the
/// Unix epoch, the format version string, and the blocks in display order.
#[derive(Clone, Debug, PartialEq, Eq)]
pub struct Scheme {
    time: u64,
    version: String,
    blocks: Vec<Block>,
}

/// The models of a sequence of blocks, elementwise.
pub open spec fn block_views(bs: Seq<Block>) -> Seq<BlockV> {
    Seq::new(bs.len(), |k: int| bs[k]@)
}

impl View for Scheme {
    type V = SchemeV;

    closed spec fn view(&self) -> SchemeV {
        SchemeV { time: self.time, version: self.version@, blocks: block_views(self.blocks@) }
    }
}

/// Relies on `std::time::SystemTime`: the milliseconds elapsed since the
/// Unix epoch, if the clock can be read and the reading fits in 64 bits.
#[verifier::external_body]
fn clock_millis() -> Option<u64> {
    match std::time::SystemTime::now().duration_since(std::time::UNIX_EPOCH) {
        Ok(d) => u64::try_from(d.as_millis()).ok(),
        Err(_) => None,
    }
}

impl Scheme {
    /// An empty document carrying the given timestamp and the current
    /// format version.
    pub fn with_time(time: u64) -> (r: Self)
        ensures
            r@.time == time,
            r@.version == version_text(),
            r@.blocks =~= Seq::<BlockV>::empty(),
            r@.wf(),
    {
        Scheme { time, version: String::from_str(version_str()), blocks: Vec::new() }
    }

    /// An empty document stamped with the current wall-clock time. Fails
    /// with `ClockUnavailable` when the clock cannot be read.
    pub fn new() -> (r: Result<Self, Error>)
        ensures
            match r {
                Ok(s) => s@.version == version_text() && s@.blocks =~= Seq::<BlockV>::empty()
                    && s@.wf(),
                Err(e) => e == Error::ClockUnavailable,
            },
    {
        match clock_millis() {
            Some(t) => Ok(Self::with_time(t)),
            None => Err(Error::ClockUnavailable),
        }
    }

    /// Appends a block at the end of the document; nothing else changes.
    pub fn add_block(&mut self, block: Block)
        ensures
            final(self)@.time == old(self)@.time,
            final(self)@.version == old(self)@.version,
            final(self)@.blocks =~= old(self)@.blocks.push(block@),
    {
        self.blocks.push(block);
        proof {
            assert(self@.blocks =~= old(self)@.blocks.push(block@));
        }
    }

    /// The document's creation timestamp, in milliseconds since the epoch.
    pub fn time(&self) -> (r: u64)
        ensures
            r == self@.time,
    {
        self.time
    }

    /// The document's format version string.
    pub fn version(&self) -> (r: String)
        ensures
            r@ == self@.version,
    {
        self.version.clone()
    }

    /// The document's blocks, in display order.
    pub fn blocks(&self) -> (r: &Vec<Block>)
        ensures
            r@.len() == self@.blocks.len(),
            forall|i: int| 0 <= i < r@.len() ==> #[trigger] r@[i]@ == self@.blocks[i],
    {
        &self.blocks
    }

    /// Parses a document out of JSON text: the text must hold exactly one
    /// JSON value (with insignificant whitespace around and inside it), and
    /// that value must decode as `from_value` prescribes.
    pub fn from_json(text: &str) -> (r: Result<Self, Error>)
        ensures
            match r {
                Ok(s) => spec_from_json(text@) == Ok::<SchemeV, Error>(s@) && s@.wf(),
                Err(e) => spec_from_json(text@) == Err::<SchemeV, Error>(e),
            },
    {
        let chars = chars_of(text);
        match parse_value_exec(&chars, 0) {
            Some((v, j)) => {
                let end = ws_end_exec(&chars, j);
                if end != chars.len() {
                    return Err(Error::InvalidJson);
                }
                decode_scheme(&v)
            },
            None => Err(Error::InvalidJson),
        }
    }

    /// Parses a document out of an already-parsed generic JSON value: the
    /// two-phase decode reads each block's `type` tag and only then decodes
    /// the block's `data` against the shape that tag selects.
    pub fn from_value(value: JsonValue) -> (r: Result<Self, Error>)
        ensures
            match r {
                Ok(s) => value_to_scheme(value@) == Ok::<SchemeV, Error>(s@) && s@.wf(),
                Err(e) => value_to_scheme(value@) == Err::<SchemeV, Error>(e),
            },
    {
        decode_scheme(&value)
    }

    /// Serializes the document as compact JSON: fields in the order
    /// `time`, `version`, `blocks`, and in each block `id`, `type`, `data`,
    /// the `type` tag always derived from the payload's variant.
    pub fn to_json(&self) -> (r: String)
        ensures
            r@ == json_of_scheme(self@),
    {
        let mut out: Vec<char> = Vec::new();
        push_str(&mut out, "{\"time\":");
        push_u64(&mut out, self.time);
        push_str(&mut out, ",\"version\":\"");
        push_escaped(&mut out, self.version.as_str());
        push_str(&mut out, "\",\"blocks\":[");
        let ghost pre = out@;
        let n = self.blocks.len();
        let mut i: usize = 0;
        while i < n
            invariant
                i <= n,
                n == self.blocks@.len(),
                self@.blocks.len() == n,
                forall|j: int| 0 <= j < n ==> #[trigger] self.blocks@[j]@ == self@.blocks[j],
                out@ + blocks_text(self@.blocks, i as int) == pre + blocks_text(self@.blocks, 0),
            decreases n - i,
        {
            let ghost before = out@;
            print_block(&mut out, &self.blocks[i]);
            if i + 1 < n {
                push_str(&mut out, ",");
                proof {
                    reveal_strlit(",");
                    assert(","@ =~= seq![',']);
                    assert(out@ + blocks_text(self@.blocks, i + 1 as int) =~= before + blocks_text(
                        self@.blocks,
                        i as int,
                    ));
                }
            } else {
                proof {
                    assert(out@ + blocks_text(self@.blocks, i + 1 as int) =~= before + blocks_text(
                        self@.blocks,
                        i as int,
                    ));
                }
            }
            i = i + 1;
        }
        push_str(&mut out, "]}");
        proof {
            assert(pre + blocks_text(self@.blocks, 0) + Seq::<char>::empty() =~= pre + blocks_text(
                self@.blocks,
                0,
            ));
            assert(out@ =~= json_of_scheme(self@));
        }
        string_from_chars(&out)
    }
}

/// Compact JSON text of a payload, fields in the fixed order the format
/// prescribes.
pub open spec fn data_text(d: BlockDataV) -> Seq<char> {
    match d {
        BlockDataV::Header(h) => "{\"text\":\""@ + escape_string(h.text) + "\",\"level\":"@
            + dec_digits(h.level as nat) + "}"@,
        BlockDataV::Paragraph(p) => "{\"text\":\""@ + escape_string(p.text) + "\"}"@,
    }
}

/// Compact JSON text of one block: `id`, `type`, `data`, in that order.
/// The `type` field is the tag derived from the payload's variant, never a
/// stored value.
pub open spec fn block_text(b: BlockV) -> Seq<char> {
    "{\"id\":\""@ + escape_string(b.id) + "\",\"type\":\""@ + tag_of(b.data) + "\",\"data\":"@
        + data_text(b.data) + "}"@
}

/// Compact JSON text of the blocks from index `i` on, comma separated.
pub open spec fn blocks_text(bs: Seq<BlockV>, i: int) -> Seq<char>
    decreases bs.len() - i,
{
    if i < 0 || i >= bs.len() {
        Seq::empty()
    } else if i == bs.len() - 1 {
        block_text(bs[i])
    } else {
        block_text(bs[i]) + seq![','] + blocks_text(bs, i + 1)
    }
}

/// Compact JSON text of a whole document.
pub open spec fn json_of_scheme(s: SchemeV) -> Seq<char> {
    "{\"time\":"@ + dec_digits(s.time as nat) + ",\"version\":\""@ + escape_string(s.version)
        + "\",\"blocks\":["@ + blocks_text(s.blocks, 0) + "]}"@
}

/// Appends the compact JSON text of one payload to `out`.
fn print_data(out: &mut Vec<char>, d: &BlockData)
    ensures
        final(out)@ == old(out)@ + data_text(d@),
{
    match d {
        BlockData::Header(h) => {
            push_str(out, "{\"text\":\"");
            push_escaped(out, h.text());
            push_str(out, "\",\"level\":");
            push_u64(out, h.level() as u64);
            push_str(out, "}");
            proof {
                assert(out@ =~= old(out)@ + data_text(d@));
            }
        },
        BlockData::Paragraph(p) => {
            push_str(out, "{\"text\":\"");
            push_escaped(out, p.text());
            push_str(out, "\"}");
            proof {
                assert(out@ =~= old(out)@ + data_text(d@));
            }
        },
    }
}

/// Decodes one element of the `blocks` array, dispatching on its `type`
/// tag exactly as `block_of_value` prescribes.
fn decode_block(v: &JsonValue, index: usize) -> (r: Result<Block, Error>)
    ensures
        match r {
            Ok(b) => block_of_value(v@, index) == Ok::<BlockV, Error>(b@) && b@.wf(),
            Err(e) => block_of_value(v@, index) == Err::<BlockV, Error>(e),
        },
{
    let members = match v {
        JsonValue::Obj(ms) => ms,
        _ => {
            return Err(Error::PayloadShapeMismatch { index });
        },
    };
    let id = match obj_get(members, "id") {
        Some(val) => match val {
            JsonValue::Str(s) => s.clone(),
            _ => {
                return Err(Error::PayloadShapeMismatch { index });
            },
        },
        None => {
            return Err(Error::PayloadShapeMismatch { index });
        },
    };
    let tag = match obj_get(members, "type") {
        Some(val) => match val {
            JsonValue::Str(s) => s.clone(),
            _ => {
                return Err(Error::PayloadShapeMismatch { index });
            },
        },
        None => {
            return Err(Error::PayloadShapeMismatch { index });
        },
    };
    let data_val = match obj_get(members, "data") {
        Some(val) => val,
        None => {
            return Err(Error::PayloadShapeMismatch { index });
        },
    };
    let data = if str_eq(tag.as_str(), "header") {
        let dm = match data_val {
            JsonValue::Obj(dm) => dm,
            _ => {
                return Err(Error::PayloadShapeMismatch { index });
            },
        };
        let text = match obj_get(dm, "text") {
            Some(val) => match val {
                JsonValue::Str(s) => s.clone(),
                _ => {
                    return Err(Error::PayloadShapeMismatch { index });
                },
            },
            None => {
                return Err(Error::PayloadShapeMismatch { index });
            },
        };
        let level = match obj_get(dm, "level") {
            Some(val) => match val {
                JsonValue::UInt(n) => *n,
                _ => {
                    return Err(Error::PayloadShapeMismatch { index });
                },
            },
            None => {
                return Err(Error::PayloadShapeMismatch { index });
            },
        };
        if level > 255 {
            return Err(Error::PayloadShapeMismatch { index });
        }
        BlockData::Header(HeaderData::new(text, level as u8))
    } else if str_eq(tag.as_str(), "paragraph") {
        let dm = match data_val {
            JsonValue::Obj(dm) => dm,
            _ => {
                return Err(Error::PayloadShapeMismatch { index });
            },
        };
        let text = match obj_get(dm, "text") {
            Some(val) => match val {
                JsonValue::Str(s) => s.clone(),
                _ => {
                    return Err(Error::PayloadShapeMismatch { index });
                },
            },
            None => {
                return Err(Error::PayloadShapeMismatch { index });
            },
        };
        BlockData::Paragraph(ParagraphData::new(text))
    } else {
        return Err(Error::UnknownBlockType { index });
    };
    let b = Block { id, tag, data };
    proof {
        assert(block_of_value(v@, index) == Ok::<BlockV, Error>(b@));
    }
    Ok(b)
}

/// Decodes a whole document from a generic JSON value.
fn decode_scheme(v: &JsonValue) -> (r: Result<Scheme, Error>)
    ensures
        match r {
            Ok(s) => value_to_scheme(v@) == Ok::<SchemeV, Error>(s@) && s@.wf(),
            Err(e) => value_to_scheme(v@) == Err::<SchemeV, Error>(e),
        },
{
    let members = match v {
        JsonValue::Obj(ms) => ms,
        _ => {
            return Err(Error::MalformedEnvelope);
        },
    };
    let time = match obj_get(members, "time") {
        Some(val) => match val {
            JsonValue::UInt(n) => *n,
            _ => {
                return Err(Error::MalformedEnvelope);
            },
        },
        None => {
            return Err(Error::MalformedEnvelope);
        },
    };
    let version = match obj_get(members, "version") {
        Some(val) => match val {
            JsonValue::Str(s) => s.clone(),
            _ => {
                return Err(Error::MalformedEnvelope);
            },
        },
        None => {
            return Err(Error::MalformedEnvelope);
        },
    };
    let items = match obj_get(members, "blocks") {
        Some(val) => match val {
            JsonValue::Arr(items) => items,
            _ => {
                return Err(Error::MalformedEnvelope);
            },
        },
        None => {
            return Err(Error::MalformedEnvelope);
        },
    };
    proof {
        lemma_jv_list_pointwise(items@, 0);
    }
    let ghost itemsv = jv_list(items@, 0);
    let n = items.len();
    let mut blocks: Vec<Block> = Vec::new();
    let mut i: usize = 0;
    while i < n
        invariant
            i <= n,
            n == items@.len(),
            itemsv == jv_list(items@, 0),
            itemsv.len() == n,
            forall|k: int| 0 <= k < n ==> #[trigger] itemsv[k] == jv(items@[0 + k]),
            v@ == JsonV::Obj(jv_members(members@, 0)),
            lookup(jv_members(members@, 0), "time"@) == Some(JsonV::UInt(time)),
            lookup(jv_members(members@, 0), "version"@) == Some(JsonV::Str(version@)),
            lookup(jv_members(members@, 0), "blocks"@) == Some(JsonV::Arr(itemsv)),
            blocks@.len() == i,
            forall|k: int| 0 <= k < i ==> (#[trigger] block_views(blocks@)[k]).wf(),
            match blocks_of_list(itemsv, i as int) {
                Ok(rest) => blocks_of_list(itemsv, 0) == Ok::<Seq<BlockV>, Error>(
                    block_views(blocks@) + rest,
                ),
                Err(e) => blocks_of_list(itemsv, 0) == Err::<Seq<BlockV>, Error>(e),
            },
        decreases n - i,
    {
        match decode_block(&items[i], i) {
            Ok(b) => {
                let ghost prev = blocks@;
                blocks.push(b);
                proof {
                    assert(itemsv[i as int] == jv(items@[0 + i as int]));
                    assert(block_of_value(itemsv[i as int], i) == Ok::<BlockV, Error>(b@));
                    assert(block_views(prev.push(b)) =~= block_views(prev) + seq![b@]);
                    let ghost tail = blocks_of_list(itemsv, i as int + 1);
                    match tail {
                        Ok(rest) => {
                            assert(blocks_of_list(itemsv, i as int) == Ok::<Seq<BlockV>, Error>(
                                seq![b@] + rest,
                            ));
                            assert(block_views(prev) + (seq![b@] + rest) =~= block_views(
                                blocks@,
                            ) + rest);
                        },
                        Err(_) => {},
                    }
                }
            },
            Err(e) => {
                proof {
                    assert(itemsv[i as int] == jv(items@[0 + i as int]));
                    assert(blocks_of_list(itemsv, i as int) == Err::<Seq<BlockV>, Error>(e));
                }
                return Err(e);
            },
        }
        i = i + 1;
    }
    let s = Scheme { time, version, blocks };
    proof {
        assert(blocks_of_list(itemsv, n as int) == Ok::<Seq<BlockV>, Error>(Seq::empty()));
        assert(block_views(blocks@) + Seq::<BlockV>::empty() =~= block_views(blocks@));
        assert(value_to_scheme(v@) == Ok::<SchemeV, Error>(s@));
    }
    Ok(s)
}

/// The header payload held by the members of a `data` object, if they
/// decode as that shape: a `text` string and a `level` that fits in `u8`.
pub open spec fn header_of_members(ms: Seq<(Seq<char>, JsonV)>) -> Option<HeaderDataV> {
    match lookup(ms, "text"@) {
        Some(JsonV::Str(t)) => match lookup(ms, "level"@) {
            Some(JsonV::UInt(n)) => if n <= 255 {
                Some(HeaderDataV { text: t, level: n as u8 })
            } else {
                None
            },
            _ => None,
        },
        _ => None,
    }
}

/// The paragraph payload held by the members of a `data` object, if they
/// decode as that shape: a `text` string.
pub open spec fn paragraph_of_members(ms: Seq<(Seq<char>, JsonV)>) -> Option<ParagraphDataV> {
    match lookup(ms, "text"@) {
        Some(JsonV::Str(t)) => Some(ParagraphDataV { text: t }),
        _ => None,
    }
}

/// Decoding one element of the `blocks` array, at position `index`: the
/// element must be an object with string `id` and `type` and a `data`
/// member; the `type` tag alone selects which shape `data` is decoded as.
pub open spec fn block_of_value(v: JsonV, index: usize) -> Result<BlockV, Error> {
    match v {
        JsonV::Obj(ms) => match lookup(ms, "id"@) {
            Some(JsonV::Str(id)) => match lookup(ms, "type"@) {
                Some(JsonV::Str(tag)) => match lookup(ms, "data"@) {
                    Some(d) => if tag == header_tag() {
                        match d {
                            JsonV::Obj(dm) => match header_of_members(dm) {
                                Some(h) => Ok(
                                    BlockV { id, tag, data: BlockDataV::Header(h) },
                                ),
                                None => Err(Error::PayloadShapeMismatch { index }),
                            },
                            _ => Err(Error::PayloadShapeMismatch { index }),
                        }
                    } else if tag == paragraph_tag() {
                        match d {
                            JsonV::Obj(dm) => match paragraph_of_members(dm) {
                                Some(p) => Ok(
                                    BlockV { id, tag, data: BlockDataV::Paragraph(p) },
                                ),
                                None => Err(Error::PayloadShapeMismatch { index }),
                            },
                            _ => Err(Error::PayloadShapeMismatch { index }),
                        }
                    } else {
                        Err(Error::UnknownBlockType { index })
                    },
                    None => Err(Error::PayloadShapeMismatch { index }),
                },
                _ => Err(Error::PayloadShapeMismatch { index }),
            },
            _ => Err(Error::PayloadShapeMismatch { index }),
        },
        _ => Err(Error::PayloadShapeMismatch { index }),
    }
}

/// Decoding the elements of the `blocks` array from index `i` on: the
/// blocks in array order, or the error of the first element that fails.
pub open spec fn blocks_of_list(items: Seq<JsonV>, i: int) -> Result<Seq<BlockV>, Error>
    decreases items.len() - i,
{
    if i < 0 || i >= items.len() {
        Ok(Seq::empty())
    } else {
        match block_of_value(items[i], i as usize) {
            Ok(b) => match blocks_of_list(items, i + 1) {
                Ok(rest) => Ok(seq![b] + rest),
                Err(e) => Err(e),
            },
            Err(e) => Err(e),
        }
    }
}

/// Decoding a whole document from a generic JSON value: the top level must
/// be an object with an unsigned `time`, a string `version` and an array
/// `blocks`; every element of `blocks` must decode, else the whole parse
/// fails with the first offending element's error.
pub open spec fn value_to_scheme(v: JsonV) -> Result<SchemeV, Error> {
    match v {
        JsonV::Obj(ms) => match lookup(ms, "time"@) {
            Some(JsonV::UInt(t)) => match lookup(ms, "version"@) {
                Some(JsonV::Str(ver)) => match lookup(ms, "blocks"@) {
                    Some(JsonV::Arr(items)) => match blocks_of_list(items, 0) {
                        Ok(bs) => Ok(SchemeV { time: t, version: ver, blocks: bs }),
                        Err(e) => Err(e),
                    },
                    _ => Err(Error::MalformedEnvelope),
                },
                _ => Err(Error::MalformedEnvelope),
            },
            _ => Err(Error::MalformedEnvelope),
        },
        _ => Err(Error::MalformedEnvelope),
    }
}

/// Parsing a whole document from JSON text: the text must hold exactly
/// one JSON value and nothing but whitespace after it, and that value must
/// decode as `value_to_scheme` prescribes.
pub open spec fn spec_from_json(t: Seq<char>) -> Result<SchemeV, Error> {
    match spec_parse_value(t, 0) {
        Some((v, j)) => if ws_end(t, j) == t.len() {
            value_to_scheme(v)
        } else {
            Err(Error::InvalidJson)
        },
        None => Err(Error::InvalidJson),
    }
}

/// The canonical generic-value encoding of a payload.
pub open spec fn data_to_value(d: BlockDataV) -> JsonV {
    match d {
        BlockDataV::Header(h) => JsonV::Obj(
            seq![("text"@, JsonV::Str(h.text)), ("level"@, JsonV::UInt(h.level as u64))],
        ),
        BlockDataV::Paragraph(p) => JsonV::Obj(seq![("text"@, JsonV::Str(p.text))]),
    }
}

/// The canonical generic-value encoding of a block; its `type` member is
/// the tag derived from the payload's variant.
pub open spec fn block_to_value(b: BlockV) -> JsonV {
    JsonV::Obj(
        seq![
            ("id"@, JsonV::Str(b.id)),
            ("type"@, JsonV::Str(tag_of(b.data))),
            ("data"@, data_to_value(b.data)),
        ],
    )
}

/// The canonical generic-value encodings of the blocks from index `i` on.
pub open spec fn blocks_to_values(bs: Seq<BlockV>, i: int) -> Seq<JsonV>
    decreases bs.len() - i,
{
    if i < 0 || i >= bs.len() {
        Seq::empty()
    } else {
        seq![block_to_value(bs[i])] + blocks_to_values(bs, i + 1)
    }
}

pub proof fn lemma_blocks_to_values_pointwise(bs: Seq<BlockV>, i: int)
    requires
        0 <= i <= bs.len(),
    ensures
        blocks_to_values(bs, i).len() == bs.len() - i,
        forall|k: int|
            0 <= k < bs.len() - i ==> #[trigger] blocks_to_values(bs, i)[k] == block_to_value(
                bs[i + k],
            ),
    decreases bs.len() - i,
{
    if i < bs.len() {
        lemma_blocks_to_values_pointwise(bs, i + 1);
        assert forall|k: int| 0 <= k < bs.len() - i implies #[trigger] blocks_to_values(bs, i)[k]
            == block_to_value(bs[i + k]) by {
            if k > 0 {
                assert(blocks_to_values(bs, i)[k] == blocks_to_values(bs, i + 1)[k - 1]);
                assert(blocks_to_values(bs, i + 1)[k - 1] == block_to_value(bs[(i + 1) + (k
                    - 1)]));
            }
        }
    }
}

/// The canonical generic-value encoding of a document.
pub open spec fn scheme_to_value(s: SchemeV) -> JsonV {
    JsonV::Obj(
        seq![
            ("time"@, JsonV::UInt(s.time)),
            ("version"@, JsonV::Str(s.version)),
            ("blocks"@, JsonV::Arr(blocks_to_values(s.blocks, 0))),
        ],
    )
}

/// No two variants share a tag.
pub proof fn lemma_tags_distinct()
    ensures
        header_tag() != paragraph_tag(),
{
    reveal_strlit("header");
    reveal_strlit("paragraph");
    assert(header_tag().len() != paragraph_tag().len());
}

/// Tag derivation: serialization writes as the `type` field the tag derived
/// from the block's payload variant, never the stored tag — a block whose
/// stored tag were stale would serialize exactly as the consistent one.
pub proof fn lemma_tag_derivation(b: BlockV, stale: Seq<char>)
    ensures
        block_text(BlockV { tag: stale, ..b }) == block_text(
            BlockV { tag: tag_of(b.data), ..b },
        ),
{
}

/// Decoding the canonical encoding of one well-formed block yields it back.
proof fn lemma_block_value_round_trip(b: BlockV, index: usize)
    requires
        b.wf(),
    ensures
        block_of_value(block_to_value(b), index) == Ok::<BlockV, Error>(b),
{
    reveal_strlit("id");
    reveal_strlit("type");
    reveal_strlit("data");
    reveal_strlit("text");
    reveal_strlit("level");
    let ms = seq![
        ("id"@, JsonV::Str(b.id)),
        ("type"@, JsonV::Str(tag_of(b.data))),
        ("data"@, data_to_value(b.data)),
    ];
    assert(block_to_value(b) == JsonV::Obj(ms));
    assert("id"@.len() == 2 && "type"@.len() == 4 && "data"@.len() == 4);
    assert("text"@.len() == 4 && "level"@.len() == 5);
    assert(lookup_from(ms, "id"@, 0) == Some(JsonV::Str(b.id)));
    assert(ms[0].0 != "type"@);
    assert(lookup_from(ms, "type"@, 0) == lookup_from(ms, "type"@, 1));
    assert(lookup_from(ms, "type"@, 1) == Some(JsonV::Str(tag_of(b.data))));
    assert(ms[0].0 != "data"@);
    assert("type"@[0] != "data"@[0]);
    assert(ms[1].0 != "data"@);
    assert(lookup_from(ms, "data"@, 0) == lookup_from(ms, "data"@, 1));
    assert(lookup_from(ms, "data"@, 1) == lookup_from(ms, "data"@, 2));
    assert(lookup_from(ms, "data"@, 2) == Some(data_to_value(b.data)));
    lemma_tags_distinct();
    match b.data {
        BlockDataV::Header(h) => {
            let dm = seq![("text"@, JsonV::Str(h.text)), ("level"@, JsonV::UInt(h.level as u64))];
            assert(data_to_value(b.data) == JsonV::Obj(dm));
            assert(lookup_from(dm, "text"@, 0) == Some(JsonV::Str(h.text)));
            assert(dm[0].0 != "level"@);
            assert(lookup_from(dm, "level"@, 0) == lookup_from(dm, "level"@, 1));
            assert(lookup_from(dm, "level"@, 1) == Some(JsonV::UInt(h.level as u64)));
            assert(header_of_members(dm) == Some(
                HeaderDataV { text: h.text, level: (h.level as u64) as u8 },
            ));
            assert(HeaderDataV { text: h.text, level: (h.level as u64) as u8 } =~= h);
            assert(BlockV { id: b.id, tag: header_tag(), data: BlockDataV::Header(h) } =~= b);
        },
        BlockDataV::Paragraph(p) => {
            let dm = seq![("text"@, JsonV::Str(p.text))];
            assert(data_to_value(b.data) == JsonV::Obj(dm));
            assert(lookup_from(dm, "text"@, 0) == Some(JsonV::Str(p.text)));
            assert(paragraph_of_members(dm) == Some(ParagraphDataV { text: p.text }));
            assert(ParagraphDataV { text: p.text } =~= p);
            assert(BlockV { id: b.id, tag: paragraph_tag(), data: BlockDataV::Paragraph(p) }
                =~= b);
        },
    }
}

proof fn lemma_blocks_value_round_trip(blocks: Seq<BlockV>, i: int)
    requires
        0 <= i <= blocks.len(),
        forall|j: int| 0 <= j < blocks.len() ==> (#[trigger] blocks[j]).wf(),
    ensures
        blocks_of_list(blocks_to_values(blocks, 0), i) == Ok::<Seq<BlockV>, Error>(
            blocks.subrange(i, blocks.len() as int),
        ),
    decreases blocks.len() - i,
{
    let mapped = blocks_to_values(blocks, 0);
    lemma_blocks_to_values_pointwise(blocks, 0);
    if i == blocks.len() {
        assert(blocks.subrange(i, blocks.len() as int) =~= Seq::<BlockV>::empty());
    } else {
        assert(mapped[i] == block_to_value(blocks[i]));
        lemma_block_value_round_trip(blocks[i], i as usize);
        lemma_blocks_value_round_trip(blocks, i + 1);
        assert(seq![blocks[i]] + blocks.subrange(i + 1, blocks.len() as int) =~= blocks.subrange(
            i,
            blocks.len() as int,
        ));
    }
}

/// Round trip at the generic-value layer: decoding the canonical encoding
/// of any well-formed document yields a document equal to it in all fields.
pub proof fn lemma_value_round_trip(s: SchemeV)
    requires
        s.wf(),
    ensures
        value_to_scheme(scheme_to_value(s)) == Ok::<SchemeV, Error>(s),
{
    reveal_strlit("time");
    reveal_strlit("version");
    reveal_strlit("blocks");
    let ms = seq![
        ("time"@, JsonV::UInt(s.time)),
        ("version"@, JsonV::Str(s.version)),
        ("blocks"@, JsonV::Arr(blocks_to_values(s.blocks, 0))),
    ];
    assert(scheme_to_value(s) == JsonV::Obj(ms));
    assert("time"@.len() == 4 && "version"@.len() == 7 && "blocks"@.len() == 6);
    assert(lookup_from(ms, "time"@, 0) == Some(JsonV::UInt(s.time)));
    assert(ms[0].0 != "version"@);
    assert(lookup_from(ms, "version"@, 0) == lookup_from(ms, "version"@, 1));
    assert(lookup_from(ms, "version"@, 1) == Some(JsonV::Str(s.version)));
    assert(ms[0].0 != "blocks"@);
    assert(ms[1].0 != "blocks"@);
    assert(lookup_from(ms, "blocks"@, 0) == lookup_from(ms, "blocks"@, 1));
    assert(lookup_from(ms, "blocks"@, 1) == lookup_from(ms, "blocks"@, 2));
    assert(lookup_from(ms, "blocks"@, 2) == Some(JsonV::Arr(blocks_to_values(s.blocks, 0))));
    lemma_blocks_value_round_trip(s.blocks, 0);
    assert(s.blocks.subrange(0, s.blocks.len() as int) =~= s.blocks);
    assert(value_to_scheme(scheme_to_value(s)) == Ok::<SchemeV, Error>(
        SchemeV { time: s.time, version: s.version, blocks: s.blocks },
    ));
    assert(SchemeV { time: s.time, version: s.version, blocks: s.blocks } =~= s);
}

/// Where each piece of a serialized header payload stands in the text.
#[verifier::rlimit(100)]
#[verifier::spinoff_prover]
proof fn lemma_header_layout(t: Seq<char>, i: int, h: HeaderDataV)
    requires
        seg(t, i, data_text(BlockDataV::Header(h))),
    ensures
        ({
            let m = escape_string(h.text).len() + 1;
            let k = dec_digits(h.level as nat).len();
            &&& data_text(BlockDataV::Header(h)).len() == 19 + m + k
            &&& i >= 0
            &&& i + 19 + m + k <= t.len()
            &&& t[i] == '{'
            &&& t[i + 1] == '"'
            &&& t[i + 7] == ':'
            &&& t[i + 8] == '"'
            &&& spec_parse_string_body(t, i + 2) == Some(("text"@, i + 7))
            &&& spec_parse_string_body(t, i + 9) == Some((h.text, i + 9 + m))
            &&& t[i + 9 + m] == ','
            &&& t[i + 10 + m] == '"'
            &&& spec_parse_string_body(t, i + 11 + m) == Some(("level"@, i + 17 + m))
            &&& t[i + 17 + m] == ':'
            &&& spec_parse_number(t, i + 18 + m) == Some(
                (JsonV::UInt(h.level as u64), i + 18 + m + k),
            )
            &&& t[i + 18 + m + k] == '}'
        }),
{
    reveal_strlit("{\"text\":\"");
    reveal_strlit("\",\"level\":");
    reveal_strlit(",\"level\":");
    reveal_strlit("}");
    reveal_strlit("text");
    reveal_strlit("level");
    let d = BlockDataV::Header(h);
    let u1 = "{\"text\":\""@;
    let u2 = escape_string(h.text) + seq!['"'];
    let u3 = ",\"level\":"@;
    let u4 = dec_digits(h.level as nat);
    let u5 = "}"@;
    let m = u2.len() as int;
    let k = u4.len() as int;
    assert(data_text(d) =~= u1 + (u2 + (u3 + (u4 + u5))));
    lemma_seg_split(t, i, u1, u2 + (u3 + (u4 + u5)));
    lemma_seg_split(t, i + 9, u2, u3 + (u4 + u5));
    lemma_seg_split(t, i + 9 + m, u3, u4 + u5);
    lemma_seg_split(t, i + 18 + m, u4, u5);
    lemma_seg_char(t, i, u1, 0);
    lemma_seg_char(t, i, u1, 1);
    lemma_seg_char(t, i, u1, 7);
    lemma_seg_char(t, i, u1, 8);
    lemma_seg_char(t, i + 9 + m, u3, 0);
    lemma_seg_char(t, i + 9 + m, u3, 1);
    lemma_seg_char(t, i + 9 + m, u3, 8);
    lemma_seg_char(t, i + 18 + m + k, u5, 0);
    lemma_seg_inner(t, i, u1, 2, 7);
    assert(u1.subrange(2, 7) =~= "text"@ + seq!['"']);
    lemma_escape_ordinary("text"@);
    assert(escape_string("text"@) + seq!['"'] == "text"@ + seq!['"']);
    lemma_parse_escaped_string(t, i + 2, "text"@);
    lemma_parse_escaped_string(t, i + 9, h.text);
    lemma_seg_inner(t, i + 9 + m, u3, 2, 8);
    assert(u3.subrange(2, 8) =~= "level"@ + seq!['"']);
    lemma_escape_ordinary("level"@);
    assert(escape_string("level"@) + seq!['"'] == "level"@ + seq!['"']);
    lemma_parse_escaped_string(t, i + 11 + m, "level"@);
    lemma_parse_number_seg(t, i + 18 + m, h.level as u64);
}

/// Where each piece of a serialized paragraph payload stands in the text.
#[verifier::rlimit(100)]
#[verifier::spinoff_prover]
proof fn lemma_paragraph_layout(t: Seq<char>, i: int, p: ParagraphDataV)
    requires
        seg(t, i, data_text(BlockDataV::Paragraph(p))),
    ensures
        ({
            let m = escape_string(p.text).len() + 1;
            &&& data_text(BlockDataV::Paragraph(p)).len() == 10 + m
            &&& i >= 0
            &&& i + 10 + m <= t.len()
            &&& t[i] == '{'
            &&& t[i + 1] == '"'
            &&& t[i + 7] == ':'
            &&& t[i + 8] == '"'
            &&& spec_parse_string_body(t, i + 2) == Some(("text"@, i + 7))
            &&& spec_parse_string_body(t, i + 9) == Some((p.text, i + 9 + m))
            &&& t[i + 9 + m] == '}'
        }),
{
    reveal_strlit("{\"text\":\"");
    reveal_strlit("\"}");
    reveal_strlit("}");
    reveal_strlit("text");
    let d = BlockDataV::Paragraph(p);
    let u1 = "{\"text\":\""@;
    let u2 = escape_string(p.text) + seq!['"'];
    let u5 = "}"@;
    let m = u2.len() as int;
    assert(data_text(d) =~= u1 + (u2 + u5));
    lemma_seg_split(t, i, u1, u2 + u5);
    lemma_seg_split(t, i + 9, u2, u5);
    lemma_seg_char(t, i, u1, 0);
    lemma_seg_char(t, i, u1, 1);
    lemma_seg_char(t, i, u1, 7);
    lemma_seg_char(t, i, u1, 8);
    lemma_seg_char(t, i + 9 + m, u5, 0);
    lemma_seg_inner(t, i, u1, 2, 7);
    assert(u1.subrange(2, 7) =~= "text"@ + seq!['"']);
    lemma_escape_ordinary("text"@);
    assert(escape_string("text"@) + seq!['"'] == "text"@ + seq!['"']);
    lemma_parse_escaped_string(t, i + 2, "text"@);
    lemma_parse_escaped_string(t, i + 9, p.text);
}

/// Parsing reads back the serialized text of one payload object.
#[verifier::rlimit(100)]
#[verifier::spinoff_prover]
proof fn lemma_parse_data_seg(t: Seq<char>, i: int, d: BlockDataV)
    requires
        seg(t, i, data_text(d)),
    ensures
        spec_parse_value(t, i) == Some((data_to_value(d), i + data_text(d).len())),
{
    match d {
        BlockDataV::Header(h) => {
            lemma_header_layout(t, i, h);
            let m = escape_string(h.text).len() + 1;
            let k = dec_digits(h.level as nat).len();
            assert(spec_parse_value(t, i + 8) == Some((JsonV::Str(h.text), i + 9 + m)));
            assert(spec_parse_value(t, i + 18 + m) == Some(
                (JsonV::UInt(h.level as u64), i + 18 + m + k),
            ));
            assert(spec_parse_members(t, i + 10 + m) == Some(
                (seq![("level"@, JsonV::UInt(h.level as u64))], i + 19 + m + k),
            ));
            assert(spec_parse_members(t, i + 1) == Some(
                (
                    seq![("text"@, JsonV::Str(h.text))] + seq![
                        ("level"@, JsonV::UInt(h.level as u64)),
                    ],
                    i + 19 + m + k,
                ),
            ));
            assert(seq![("text"@, JsonV::Str(h.text))] + seq![
                ("level"@, JsonV::UInt(h.level as u64)),
            ] =~= seq![("text"@, JsonV::Str(h.text)), ("level"@, JsonV::UInt(h.level as u64))]);
            assert(spec_parse_obj_body(t, i + 1) == Some(
                (
                    seq![("text"@, JsonV::Str(h.text)), ("level"@, JsonV::UInt(h.level as u64))],
                    i + 19 + m + k,
                ),
            ));
            assert(spec_parse_value(t, i) == Some((data_to_value(d), i + 19 + m + k)));
        },
        BlockDataV::Paragraph(p) => {
            lemma_paragraph_layout(t, i, p);
            let m = escape_string(p.text).len() + 1;
            assert(spec_parse_value(t, i + 8) == Some((JsonV::Str(p.text), i + 9 + m)));
            assert(spec_parse_members(t, i + 1) == Some(
                (seq![("text"@, JsonV::Str(p.text))], i + 10 + m),
            ));
            assert(spec_parse_obj_body(t, i + 1) == Some(
                (seq![("text"@, JsonV::Str(p.text))], i + 10 + m),
            ));
            assert(spec_parse_value(t, i) == Some((data_to_value(d), i + 10 + m)));
        },
    }
}

/// Where each piece of a serialized block stands in the text.
#[verifier::rlimit(100)]
#[verifier::spinoff_prover]
proof fn lemma_block_layout(t: Seq<char>, i: int, b: BlockV)
    requires
        seg(t, i, block_text(b)),
    ensures
        ({
            let m = escape_string(b.id).len() + 1;
            let g = tag_of(b.data).len() + 1;
            let ld = data_text(b.data).len();
            &&& block_text(b).len() == 25 + m + g + ld
            &&& i >= 0
            &&& i + 25 + m + g + ld <= t.len()
            &&& t[i] == '{'
            &&& t[i + 1] == '"'
            &&& spec_parse_string_body(t, i + 2) == Some(("id"@, i + 5))
            &&& t[i + 5] == ':'
            &&& t[i + 6] == '"'
            &&& spec_parse_string_body(t, i + 7) == Some((b.id, i + 7 + m))
            &&& t[i + 7 + m] == ','
            &&& t[i + 8 + m] == '"'
            &&& spec_parse_string_body(t, i + 9 + m) == Some(("type"@, i + 14 + m))
            &&& t[i + 14 + m] == ':'
            &&& t[i + 15 + m] == '"'
            &&& spec_parse_string_body(t, i + 16 + m) == Some((tag_of(b.data), i + 16 + m + g))
            &&& t[i + 16 + m + g] == ','
            &&& t[i + 17 + m + g] == '"'
            &&& spec_parse_string_body(t, i + 18 + m + g) == Some(("data"@, i + 23 + m + g))
            &&& t[i + 23 + m + g] == ':'
            &&& seg(t, i + 24 + m + g, data_text(b.data))
            &&& t[i + 24 + m + g + ld] == '}'
        }),
{
    reveal_strlit("{\"id\":\"");
    reveal_strlit("\",\"type\":\"");
    reveal_strlit(",\"type\":\"");
    reveal_strlit("\",\"data\":");
    reveal_strlit(",\"data\":");
    reveal_strlit("}");
    reveal_strlit("id");
    reveal_strlit("type");
    reveal_strlit("data");
    reveal_strlit("header");
    reveal_strlit("paragraph");
    let v1 = "{\"id\":\""@;
    let v2 = escape_string(b.id) + seq!['"'];
    let v3 = ",\"type\":\""@;
    let v4 = tag_of(b.data) + seq!['"'];
    let v5 = ",\"data\":"@;
    let v6 = data_text(b.data);
    let v7 = "}"@;
    let m = v2.len() as int;
    let g = v4.len() as int;
    let ld = v6.len() as int;
    assert(block_text(b) =~= v1 + (v2 + (v3 + (v4 + (v5 + (v6 + v7))))));
    lemma_seg_split(t, i, v1, v2 + (v3 + (v4 + (v5 + (v6 + v7)))));
    lemma_seg_split(t, i + 7, v2, v3 + (v4 + (v5 + (v6 + v7))));
    lemma_seg_split(t, i + 7 + m, v3, v4 + (v5 + (v6 + v7)));
    lemma_seg_split(t, i + 16 + m, v4, v5 + (v6 + v7));
    lemma_seg_split(t, i + 16 + m + g, v5, v6 + v7);
    lemma_seg_split(t, i + 24 + m + g, v6, v7);
    lemma_seg_char(t, i, v1, 0);
    lemma_seg_char(t, i, v1, 1);
    lemma_seg_char(t, i, v1, 5);
    lemma_seg_char(t, i, v1, 6);
    lemma_seg_char(t, i + 7 + m, v3, 0);
    lemma_seg_char(t, i + 7 + m, v3, 1);
    lemma_seg_char(t, i + 7 + m, v3, 7);
    lemma_seg_char(t, i + 7 + m, v3, 8);
    lemma_seg_char(t, i + 16 + m + g, v5, 0);
    lemma_seg_char(t, i + 16 + m + g, v5, 1);
    lemma_seg_char(t, i + 16 + m + g, v5, 7);
    lemma_seg_char(t, i + 24 + m + g + ld, v7, 0);
    lemma_seg_inner(t, i, v1, 2, 5);
    assert(v1.subrange(2, 5) =~= "id"@ + seq!['"']);
    lemma_escape_ordinary("id"@);
    assert(escape_string("id"@) + seq!['"'] == "id"@ + seq!['"']);
    lemma_parse_escaped_string(t, i + 2, "id"@);
    lemma_parse_escaped_string(t, i + 7, b.id);
    lemma_seg_inner(t, i + 7 + m, v3, 2, 7);
    assert(v3.subrange(2, 7) =~= "type"@ + seq!['"']);
    lemma_escape_ordinary("type"@);
    assert(escape_string("type"@) + seq!['"'] == "type"@ + seq!['"']);
    lemma_parse_escaped_string(t, i + 9 + m, "type"@);
    match b.data {
        BlockDataV::Header(_) => {
            lemma_escape_ordinary("header"@);
        },
        BlockDataV::Paragraph(_) => {
            lemma_escape_ordinary("paragraph"@);
        },
    }
    assert(escape_string(tag_of(b.data)) + seq!['"'] == tag_of(b.data) + seq!['"']);
    lemma_parse_escaped_string(t, i + 16 + m, tag_of(b.data));
    lemma_seg_inner(t, i + 16 + m + g, v5, 2, 7);
    assert(v5.subrange(2, 7) =~= "data"@ + seq!['"']);
    lemma_escape_ordinary("data"@);
    assert(escape_string("data"@) + seq!['"'] == "data"@ + seq!['"']);
    lemma_parse_escaped_string(t, i + 18 + m + g, "data"@);
}

/// Parsing reads back the serialized text of one block, as the canonical
/// generic-value encoding of that block.
#[verifier::rlimit(100)]
#[verifier::spinoff_prover]
proof fn lemma_parse_block_seg(t: Seq<char>, i: int, b: BlockV)
    requires
        seg(t, i, block_text(b)),
    ensures
        spec_parse_value(t, i) == Some((block_to_value(b), i + block_text(b).len())),
{
    lemma_block_layout(t, i, b);
    let m = escape_string(b.id).len() + 1;
    let g = tag_of(b.data).len() + 1;
    let ld = data_text(b.data).len();
    lemma_parse_data_seg(t, i + 24 + m + g, b.data);
    assert(spec_parse_value(t, i + 6) == Some((JsonV::Str(b.id), i + 7 + m)));
    assert(spec_parse_value(t, i + 15 + m) == Some(
        (JsonV::Str(tag_of(b.data)), i + 16 + m + g),
    ));
    assert(spec_parse_value(t, i + 24 + m + g) == Some(
        (data_to_value(b.data), i + 24 + m + g + ld),
    ));
    assert(spec_parse_members(t, i + 17 + m + g) == Some(
        (seq![("data"@, data_to_value(b.data))], i + 25 + m + g + ld),
    ));
    assert(spec_parse_members(t, i + 8 + m) == Some(
        (
            seq![("type"@, JsonV::Str(tag_of(b.data)))] + seq![("data"@, data_to_value(b.data))],
            i + 25 + m + g + ld,
        ),
    ));
    assert(spec_parse_members(t, i + 1) == Some(
        (
            seq![("id"@, JsonV::Str(b.id))] + (seq![("type"@, JsonV::Str(tag_of(b.data)))]
                + seq![("data"@, data_to_value(b.data))]),
            i + 25 + m + g + ld,
        ),
    ));
    assert(seq![("id"@, JsonV::Str(b.id))] + (seq![("type"@, JsonV::Str(tag_of(b.data)))]
        + seq![("data"@, data_to_value(b.data))]) =~= seq![
        ("id"@, JsonV::Str(b.id)),
        ("type"@, JsonV::Str(tag_of(b.data))),
        ("data"@, data_to_value(b.data)),
    ]);
    assert(spec_parse_obj_body(t, i + 1) == Some(
        (
            seq![
                ("id"@, JsonV::Str(b.id)),
                ("type"@, JsonV::Str(tag_of(b.data))),
                ("data"@, data_to_value(b.data)),
            ],
            i + 25 + m + g + ld,
        ),
    ));
    assert(spec_parse_value(t, i) == Some((block_to_value(b), i + 25 + m + g + ld)));
}

/// Parsing reads back a serialized comma-separated block list up to and
/// including the closing bracket.
#[verifier::rlimit(100)]
#[verifier::spinoff_prover]
proof fn lemma_parse_items_seg(t: Seq<char>, i: int, bs: Seq<BlockV>, k: int)
    requires
        0 <= k < bs.len(),
        seg(t, i, blocks_text(bs, k) + seq![']']),
    ensures
        spec_parse_items(t, i) == Some(
            (blocks_to_values(bs, k), i + blocks_text(bs, k).len() + 1),
        ),
    decreases bs.len() - k,
{
    reveal_strlit("{\"id\":\"");
    let a = block_text(bs[k]);
    assert(a.len() >= 7);
    if k == bs.len() - 1 {
        assert(blocks_text(bs, k) == a);
        lemma_seg_split(t, i, a, seq![']']);
        lemma_parse_block_seg(t, i, bs[k]);
        let e = i + a.len();
        lemma_seg_char(t, e, seq![']'], 0);
        assert(t[e] == ']');
        assert(spec_parse_value(t, i) == Some((block_to_value(bs[k]), e)));
        assert(e < t.len());
        assert(!is_ws(t[e]));
        assert(ws_end(t, e) == e);
        assert(spec_parse_items(t, i) == Some((seq![block_to_value(bs[k])], e + 1))) by {
            reveal_with_fuel(crate::json::spec_parse_items, 2);
        }
        assert(blocks_to_values(bs, k + 1) =~= Seq::<JsonV>::empty());
        assert(blocks_to_values(bs, k) =~= seq![block_to_value(bs[k])]);
    } else {
        let rest = blocks_text(bs, k + 1);
        assert(blocks_text(bs, k) == a + seq![','] + rest);
        assert(blocks_text(bs, k) + seq![']'] =~= a + (seq![','] + (rest + seq![']'])));
        lemma_seg_split(t, i, a, seq![','] + (rest + seq![']']));
        lemma_seg_split(t, i + a.len(), seq![','], rest + seq![']']);
        lemma_parse_block_seg(t, i, bs[k]);
        lemma_seg_char(t, i + a.len(), seq![','], 0);
        lemma_parse_items_seg(t, i + a.len() + 1, bs, k + 1);
        assert(spec_parse_items(t, i) == Some(
            (
                seq![block_to_value(bs[k])] + blocks_to_values(bs, k + 1),
                i + a.len() + 1 + rest.len() + 1,
            ),
        ));
        assert(blocks_to_values(bs, k) == seq![block_to_value(bs[k])] + blocks_to_values(
            bs,
            k + 1,
        ));
    }
}

/// Where each piece of a serialized document stands in the text.
#[verifier::rlimit(100)]
#[verifier::spinoff_prover]
proof fn lemma_scheme_layout(t: Seq<char>, i: int, s: SchemeV)
    requires
        seg(t, i, json_of_scheme(s)),
    ensures
        ({
            let k1 = dec_digits(s.time as nat).len();
            let m1 = escape_string(s.version).len() + 1;
            let lb = blocks_text(s.blocks, 0).len();
            &&& json_of_scheme(s).len() == 33 + k1 + m1 + lb
            &&& i >= 0
            &&& i + 33 + k1 + m1 + lb <= t.len()
            &&& t[i] == '{'
            &&& t[i + 1] == '"'
            &&& spec_parse_string_body(t, i + 2) == Some(("time"@, i + 7))
            &&& t[i + 7] == ':'
            &&& spec_parse_number(t, i + 8) == Some((JsonV::UInt(s.time), i + 8 + k1))
            &&& t[i + 8 + k1] == ','
            &&& t[i + 9 + k1] == '"'
            &&& spec_parse_string_body(t, i + 10 + k1) == Some(("version"@, i + 18 + k1))
            &&& t[i + 18 + k1] == ':'
            &&& t[i + 19 + k1] == '"'
            &&& spec_parse_string_body(t, i + 20 + k1) == Some((s.version, i + 20 + k1 + m1))
            &&& t[i + 20 + k1 + m1] == ','
            &&& t[i + 21 + k1 + m1] == '"'
            &&& spec_parse_string_body(t, i + 22 + k1 + m1) == Some(
                ("blocks"@, i + 29 + k1 + m1),
            )
            &&& t[i + 29 + k1 + m1] == ':'
            &&& t[i + 30 + k1 + m1] == '['
            &&& seg(t, i + 31 + k1 + m1, blocks_text(s.blocks, 0) + seq![']'])
            &&& t[i + 32 + k1 + m1 + lb] == '}'
        }),
{
    reveal_strlit("{\"time\":");
    reveal_strlit(",\"version\":\"");
    reveal_strlit("\",\"blocks\":[");
    reveal_strlit(",\"blocks\":[");
    reveal_strlit("]}");
    reveal_strlit("time");
    reveal_strlit("version");
    reveal_strlit("blocks");
    let w1 = "{\"time\":"@;
    let w2 = dec_digits(s.time as nat);
    let w3 = ",\"version\":\""@;
    let w4 = escape_string(s.version) + seq!['"'];
    let w5 = ",\"blocks\":["@;
    let w6 = blocks_text(s.blocks, 0);
    let w7 = "]}"@;
    let k1 = w2.len() as int;
    let m1 = w4.len() as int;
    let lb = w6.len() as int;
    assert(json_of_scheme(s) =~= w1 + (w2 + (w3 + (w4 + (w5 + (w6 + w7))))));
    lemma_seg_split(t, i, w1, w2 + (w3 + (w4 + (w5 + (w6 + w7)))));
    lemma_seg_split(t, i + 8, w2, w3 + (w4 + (w5 + (w6 + w7))));
    lemma_seg_split(t, i + 8 + k1, w3, w4 + (w5 + (w6 + w7)));
    lemma_seg_split(t, i + 20 + k1, w4, w5 + (w6 + w7));
    lemma_seg_split(t, i + 20 + k1 + m1, w5, w6 + w7);
    lemma_seg_char(t, i, w1, 0);
    lemma_seg_char(t, i, w1, 1);
    lemma_seg_char(t, i, w1, 7);
    lemma_seg_char(t, i + 8 + k1, w3, 0);
    lemma_seg_char(t, i + 8 + k1, w3, 1);
    lemma_seg_char(t, i + 8 + k1, w3, 10);
    lemma_seg_char(t, i + 8 + k1, w3, 11);
    lemma_seg_char(t, i + 20 + k1 + m1, w5, 0);
    lemma_seg_char(t, i + 20 + k1 + m1, w5, 1);
    lemma_seg_char(t, i + 20 + k1 + m1, w5, 9);
    lemma_seg_char(t, i + 20 + k1 + m1, w5, 10);
    lemma_seg_inner(t, i, w1, 2, 7);
    assert(w1.subrange(2, 7) =~= "time"@ + seq!['"']);
    lemma_escape_ordinary("time"@);
    assert(escape_string("time"@) + seq!['"'] == "time"@ + seq!['"']);
    lemma_parse_escaped_string(t, i + 2, "time"@);
    assert(seg(t, i + 8, w2));
    lemma_seg_char(t, i + 8 + k1, w3, 0);
    assert(!is_digit(t[i + 8 + k1]));
    lemma_parse_number_seg(t, i + 8, s.time);
    lemma_seg_inner(t, i + 8 + k1, w3, 2, 10);
    assert(w3.subrange(2, 10) =~= "version"@ + seq!['"']);
    lemma_escape_ordinary("version"@);
    assert(escape_string("version"@) + seq!['"'] == "version"@ + seq!['"']);
    lemma_parse_escaped_string(t, i + 10 + k1, "version"@);
    lemma_parse_escaped_string(t, i + 20 + k1, s.version);
    lemma_seg_inner(t, i + 20 + k1 + m1, w5, 2, 9);
    assert(w5.subrange(2, 9) =~= "blocks"@ + seq!['"']);
    lemma_escape_ordinary("blocks"@);
    assert(escape_string("blocks"@) + seq!['"'] == "blocks"@ + seq!['"']);
    lemma_parse_escaped_string(t, i + 22 + k1 + m1, "blocks"@);
    assert(w6 + w7 =~= (w6 + seq![']']) + seq!['}']);
    lemma_seg_split(t, i + 31 + k1 + m1, w6 + seq![']'], seq!['}']);
    lemma_seg_char(t, i + 31 + k1 + m1 + (lb + 1), seq!['}'], 0);
}

/// Order preservation: decoding a `blocks` array never drops, duplicates
/// or reorders elements — the `i`-th block of the document comes from the
/// `i`-th element of the array.
pub proof fn lemma_order_preservation(items: Seq<JsonV>, bs: Seq<BlockV>, i: int)
    requires
        0 <= i <= items.len(),
        blocks_of_list(items, i) == Ok::<Seq<BlockV>, Error>(bs),
    ensures
        bs.len() == items.len() - i,
        forall|j: int|
            i <= j < items.len() ==> block_of_value(#[trigger] items[j], j as usize) == Ok::<
                BlockV,
                Error,
            >(bs[j - i]),
    decreases items.len() - i,
{
    if i < items.len() {
        match block_of_value(items[i], i as usize) {
            Ok(b) => {
                match blocks_of_list(items, i + 1) {
                    Ok(rest) => {
                        lemma_order_preservation(items, rest, i + 1);
                        assert(bs == seq![b] + rest);
                        assert(bs[0] == b);
                        assert forall|j: int|
                            i <= j < items.len() implies block_of_value(
                            #[trigger] items[j],
                            j as usize,
                        ) == Ok::<BlockV, Error>(bs[j - i]) by {
                            if j > i {
                                assert(bs[j - i] == rest[j - (i + 1)]);
                            }
                        }
                    },
                    Err(_) => {},
                }
            },
            Err(_) => {},
        }
    }
}

/// Round trip: parsing the serialized text of any well-formed document
/// yields exactly that document back, every field preserved.
#[verifier::rlimit(100)]
#[verifier::spinoff_prover]
pub proof fn lemma_round_trip(s: SchemeV)
    requires
        s.wf(),
    ensures
        spec_from_json(json_of_scheme(s)) == Ok::<SchemeV, Error>(s),
{
    let t = json_of_scheme(s);
    assert(t.subrange(0, t.len() as int) =~= t);
    assert(seg(t, 0, t));
    lemma_scheme_layout(t, 0, s);
    let k1 = dec_digits(s.time as nat).len() as int;
    let m1 = escape_string(s.version).len() + 1;
    let lb = blocks_text(s.blocks, 0).len() as int;
    let arrpos = 31 + k1 + m1;
    assert(spec_parse_value(t, 8) == Some((JsonV::UInt(s.time), 8 + k1)));
    assert(spec_parse_value(t, 19 + k1) == Some((JsonV::Str(s.version), 20 + k1 + m1)));
    if s.blocks.len() == 0 {
        assert(blocks_text(s.blocks, 0) =~= Seq::<char>::empty());
        lemma_seg_char(t, arrpos, blocks_text(s.blocks, 0) + seq![']'], 0);
        assert(t[arrpos] == ']');
        assert(spec_parse_arr_body(t, arrpos) == Some(
            (Seq::<JsonV>::empty(), arrpos + 1),
        ));
        assert(blocks_to_values(s.blocks, 0) =~= Seq::<JsonV>::empty());
    } else {
        reveal_strlit("{\"id\":\"");
        lemma_parse_items_seg(t, arrpos, s.blocks, 0);
        assert(blocks_text(s.blocks, 0)[0] == block_text(s.blocks[0])[0]);
        lemma_seg_char(t, arrpos, blocks_text(s.blocks, 0) + seq![']'], 0);
        assert(t[arrpos] == '{');
        assert(spec_parse_arr_body(t, arrpos) == Some(
            (blocks_to_values(s.blocks, 0), arrpos + lb + 1),
        ));
    }
    assert(spec_parse_value(t, 30 + k1 + m1) == Some(
        (JsonV::Arr(blocks_to_values(s.blocks, 0)), arrpos + lb + 1),
    ));
    assert(spec_parse_members(t, 21 + k1 + m1) == Some(
        (
            seq![("blocks"@, JsonV::Arr(blocks_to_values(s.blocks, 0)))],
            33 + k1 + m1 + lb,
        ),
    ));
    assert(spec_parse_members(t, 9 + k1) == Some(
        (
            seq![("version"@, JsonV::Str(s.version))] + seq![
                ("blocks"@, JsonV::Arr(blocks_to_values(s.blocks, 0))),
            ],
            33 + k1 + m1 + lb,
        ),
    ));
    assert(spec_parse_members(t, 1) == Some(
        (
            seq![("time"@, JsonV::UInt(s.time))] + (seq![("version"@, JsonV::Str(s.version))]
                + seq![("blocks"@, JsonV::Arr(blocks_to_values(s.blocks, 0)))]),
            33 + k1 + m1 + lb,
        ),
    ));
    assert(seq![("time"@, JsonV::UInt(s.time))] + (seq![("version"@, JsonV::Str(s.version))]
        + seq![("blocks"@, JsonV::Arr(blocks_to_values(s.blocks, 0)))]) =~= seq![
        ("time"@, JsonV::UInt(s.time)),
        ("version"@, JsonV::Str(s.version)),
        ("blocks"@, JsonV::Arr(blocks_to_values(s.blocks, 0))),
    ]);
    assert(spec_parse_obj_body(t, 1) == Some(
        (
            seq![
                ("time"@, JsonV::UInt(s.time)),
                ("version"@, JsonV::Str(s.version)),
                ("blocks"@, JsonV::Arr(blocks_to_values(s.blocks, 0))),
            ],
            33 + k1 + m1 + lb,
        ),
    ));
    assert(spec_parse_value(t, 0) == Some((scheme_to_value(s), t.len() as int)));
    lemma_value_round_trip(s);
}

/// Appends the compact JSON text of one block to `out`.
fn print_block(out: &mut Vec<char>, b: &Block)
    ensures
        final(out)@ == old(out)@ + block_text(b@),
{
    push_str(out, "{\"id\":\"");
    push_escaped(out, b.id.as_str());
    push_str(out, "\",\"type\":\"");
    push_str(out, b.data.tag());
    push_str(out, "\",\"data\":");
    print_data(out, &b.data);
    push_str(out, "}");
    proof {
        assert(out@ =~= old(out)@ + block_text(b@));
    }
}

} // verus!
