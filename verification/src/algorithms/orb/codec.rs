//! The keypoint payload: a little-endian count followed by fixed-size
//! records, carried as Base64 text.

use vstd::prelude::*;
use vstd::bytes::{
    lemma_auto_spec_u32_to_from_le_bytes, spec_u32_from_le_bytes, spec_u32_to_le_bytes,
    u32_from_le_bytes, u32_to_le_bytes,
};
use vstd::slice::slice_subrange;
use crate::types::DetectionError;
use crate::utils::hash_utils::{
    base64_decode, base64_encode, deserialize_from_base64, serialize_to_base64,
};

verus! {

/// The most records that a payload carries.
pub const MAX_RECORDS: usize = 50;

/// The size of one record in bytes: two coordinates, the angle and the
/// descriptor.
pub const RECORD_SIZE: usize = 44;

/// The size of a descriptor in bytes.
pub const DESCRIPTOR_SIZE: usize = 32;

/// One described keypoint.
#[derive(Debug, Clone, Copy, PartialEq, Eq)]
pub struct OrbRecord {
    /// Column of the keypoint in the image.
    pub x: u32,
    /// Row of the keypoint in the image.
    pub y: u32,
    /// The orientation in radians, as the bit pattern of an IEEE-754
    /// single-precision number.
    pub angle_bits: u32,
    /// The 256 descriptor bits; bit `i` is bit `i % 8` of byte `i / 8`.
    pub descriptor: [u8; 32],
}

/// What a record holds, as plain values.
pub struct RecordModel {
    pub x: u32,
    pub y: u32,
    pub angle_bits: u32,
    pub descriptor: Seq<u8>,
}

impl View for OrbRecord {
    type V = RecordModel;

    open spec fn view(&self) -> RecordModel {
        RecordModel {
            x: self.x,
            y: self.y,
            angle_bits: self.angle_bits,
            descriptor: self.descriptor@,
        }
    }
}

/// The models of a list of records.
pub open spec fn models_of(records: Seq<OrbRecord>) -> Seq<RecordModel> {
    Seq::new(records.len(), |i: int| records[i]@)
}

/// True if every descriptor of the list has 32 bytes.
pub open spec fn valid_models(models: Seq<RecordModel>) -> bool {
    forall|i: int| 0 <= i < models.len() ==> (#[trigger] models[i]).descriptor.len() == 32
}

/// The 44 bytes of one record.
pub open spec fn record_bytes(m: RecordModel) -> Seq<u8> {
    spec_u32_to_le_bytes(m.x) + spec_u32_to_le_bytes(m.y) + spec_u32_to_le_bytes(m.angle_bits)
        + m.descriptor
}

/// The bytes of a list of records, one after the other.
pub open spec fn records_bytes(models: Seq<RecordModel>) -> Seq<u8>
    decreases models.len(),
{
    if models.len() == 0 {
        Seq::empty()
    } else {
        records_bytes(models.drop_last()) + record_bytes(models.last())
    }
}

/// The records that a payload keeps: the first fifty.
pub open spec fn kept_models(models: Seq<RecordModel>) -> Seq<RecordModel> {
    if models.len() > 50 {
        models.subrange(0, 50)
    } else {
        models
    }
}

/// The payload of a list of records: the count of the records kept, then
/// their bytes.
pub open spec fn payload_of(models: Seq<RecordModel>) -> Seq<u8> {
    spec_u32_to_le_bytes(kept_models(models).len() as u32) + records_bytes(kept_models(models))
}

/// The count that a payload declares in its first four bytes.
pub open spec fn declared_count(data: Seq<u8>) -> int {
    spec_u32_from_le_bytes(data.subrange(0, 4)) as int
}

/// True if the payload has a header and the bytes for as many records as the
/// header declares.
pub open spec fn payload_complete(data: Seq<u8>) -> bool {
    data.len() >= 4 && 4 + declared_count(data) * 44 <= data.len()
}

/// Record `i` of a payload.
pub open spec fn record_at(data: Seq<u8>, i: int) -> RecordModel {
    let at = 4 + i * 44;
    RecordModel {
        x: spec_u32_from_le_bytes(data.subrange(at, at + 4)),
        y: spec_u32_from_le_bytes(data.subrange(at + 4, at + 8)),
        angle_bits: spec_u32_from_le_bytes(data.subrange(at + 8, at + 12)),
        descriptor: data.subrange(at + 12, at + 44),
    }
}

/// The records of a payload; `None` if it is too short for its header or for
/// the count that the header declares. Bytes after the last record are
/// ignored.
pub open spec fn parse_payload(data: Seq<u8>) -> Option<Seq<RecordModel>> {
    if payload_complete(data) {
        Some(Seq::new(declared_count(data) as nat, |i: int| record_at(data, i)))
    } else {
        None
    }
}

/// The records that a Base64 payload text stands for, if it is well formed.
pub open spec fn spec_decode_orb(text: Seq<char>) -> Option<Seq<RecordModel>> {
    match base64_decode(text) {
        Some(data) => parse_payload(data),
        None => None,
    }
}

/// A list of `n` records takes `44 * n` bytes.
pub proof fn lemma_records_bytes_len(models: Seq<RecordModel>)
    requires
        valid_models(models),
    ensures
        records_bytes(models).len() == 44 * models.len(),
    decreases models.len(),
{
    lemma_auto_spec_u32_to_from_le_bytes();
    if models.len() > 0 {
        assert(valid_models(models.drop_last())) by {
            assert forall|i: int| 0 <= i < models.drop_last().len() implies (
            #[trigger] models.drop_last()[i]).descriptor.len() == 32 by {
                assert(models.drop_last()[i] == models[i]);
            }
        }
        lemma_records_bytes_len(models.drop_last());
        assert(models.last() == models[models.len() - 1]);
    }
}

/// Record `i` stands at offset `44 * i` of the bytes of its list.
pub proof fn lemma_records_bytes_at(models: Seq<RecordModel>, i: int)
    requires
        valid_models(models),
        0 <= i < models.len(),
    ensures
        records_bytes(models).len() == 44 * models.len(),
        records_bytes(models).subrange(44 * i, 44 * i + 44) == record_bytes(models[i]),
    decreases models.len(),
{
    lemma_auto_spec_u32_to_from_le_bytes();
    lemma_records_bytes_len(models);
    let front = models.drop_last();
    assert(valid_models(front)) by {
        assert forall|k: int| 0 <= k < front.len() implies (#[trigger] front[k]).descriptor.len()
            == 32 by {
            assert(front[k] == models[k]);
        }
    }
    lemma_records_bytes_len(front);
    assert(models.last() == models[models.len() - 1]);
    if i == models.len() - 1 {
        assert(records_bytes(models).subrange(44 * i, 44 * i + 44) =~= record_bytes(models[i]));
    } else {
        lemma_records_bytes_at(front, i);
        assert(front[i] == models[i]);
        assert(records_bytes(models).subrange(44 * i, 44 * i + 44) =~= records_bytes(
            front,
        ).subrange(44 * i, 44 * i + 44));
    }
}

/// Parsing the payload of a list of records gives back the records kept:
/// all of them for a list of at most fifty.
pub proof fn lemma_payload_round_trip(models: Seq<RecordModel>)
    requires
        valid_models(models),
    ensures
        parse_payload(payload_of(models)) == Some(kept_models(models)),
        models.len() <= 50 ==> parse_payload(payload_of(models)) == Some(models),
{
    lemma_auto_spec_u32_to_from_le_bytes();
    let kept = kept_models(models);
    assert(valid_models(kept)) by {
        assert forall|k: int| 0 <= k < kept.len() implies (#[trigger] kept[k]).descriptor.len()
            == 32 by {
            assert(kept[k] == models[k]);
        }
    }
    lemma_records_bytes_len(kept);
    let data = payload_of(models);
    let header = spec_u32_to_le_bytes(kept.len() as u32);
    assert(data.subrange(0, 4) =~= header);
    assert(declared_count(data) == kept.len());
    assert(payload_complete(data));
    let parsed = Seq::new(declared_count(data) as nat, |i: int| record_at(data, i));
    assert forall|i: int| 0 <= i < kept.len() implies parsed[i] == kept[i] by {
        lemma_records_bytes_at(kept, i);
        let at = 4 + i * 44;
        let m = kept[i];
        let rec = record_bytes(m);
        assert(data.subrange(at, at + 44) =~= rec);
        assert(data.subrange(at, at + 4) =~= rec.subrange(0, 4));
        assert(data.subrange(at + 4, at + 8) =~= rec.subrange(4, 8));
        assert(data.subrange(at + 8, at + 12) =~= rec.subrange(8, 12));
        assert(data.subrange(at + 12, at + 44) =~= rec.subrange(12, 44));
        assert(rec.subrange(0, 4) =~= spec_u32_to_le_bytes(m.x));
        assert(rec.subrange(4, 8) =~= spec_u32_to_le_bytes(m.y));
        assert(rec.subrange(8, 12) =~= spec_u32_to_le_bytes(m.angle_bits));
        assert(rec.subrange(12, 44) =~= m.descriptor);
    }
    assert(parsed =~= kept);
}

/// Packs a list of records, at most the first fifty, into payload bytes.
pub fn serialize_features(records: &Vec<OrbRecord>) -> (data: Vec<u8>)
    ensures
        data@ == payload_of(models_of(records@)),
        data@.len() == 4 + 44 * kept_models(models_of(records@)).len(),
        data@.len() <= 2204,
{
    let count = if records.len() > MAX_RECORDS {
        MAX_RECORDS
    } else {
        records.len()
    };
    let ghost models = models_of(records@);
    let ghost kept = kept_models(models);
    proof {
        lemma_auto_spec_u32_to_from_le_bytes();
        assert(kept.len() == count);
    }
    let mut data = u32_to_le_bytes(count as u32);
    let mut i: usize = 0;
    while i < count
        invariant
            i <= count <= records@.len(),
            count <= 50,
            models == models_of(records@),
            kept == kept_models(models),
            kept.len() == count,
            data@ == spec_u32_to_le_bytes(count as u32) + records_bytes(kept.subrange(0, i as int)),
            data@.len() == 4 + 44 * i,
        decreases count - i,
    {
        let record = &records[i];
        let ghost before = data@;
        let mut x = u32_to_le_bytes(record.x);
        let mut y = u32_to_le_bytes(record.y);
        let mut angle = u32_to_le_bytes(record.angle_bits);
        data.append(&mut x);
        data.append(&mut y);
        data.append(&mut angle);
        let mut k: usize = 0;
        while k < DESCRIPTOR_SIZE
            invariant
                k <= 32,
                data@ == before + spec_u32_to_le_bytes(record.x) + spec_u32_to_le_bytes(record.y)
                    + spec_u32_to_le_bytes(record.angle_bits) + record.descriptor@.subrange(
                    0,
                    k as int,
                ),
            decreases 32 - k,
        {
            data.push(record.descriptor[k]);
            assert(record.descriptor@.subrange(0, k as int + 1) =~= record.descriptor@.subrange(
                0,
                k as int,
            ).push(record.descriptor@[k as int]));
            k += 1;
        }
        proof {
            assert(record.descriptor@.subrange(0, 32) =~= record.descriptor@);
            assert(kept[i as int] == record@);
            assert(kept.subrange(0, i as int + 1).drop_last() =~= kept.subrange(0, i as int));
            assert(kept.subrange(0, i as int + 1).last() == record@);
            assert(data@ =~= spec_u32_to_le_bytes(count as u32) + records_bytes(
                kept.subrange(0, i as int + 1),
            ));
        }
        i += 1;
    }
    assert(kept.subrange(0, count as int) =~= kept);
    data
}

/// Reads the records of a payload. A payload shorter than its header, or
/// than the records that the header declares, is a codec error.
pub fn deserialize_features(data: &[u8]) -> (result: Result<Vec<OrbRecord>, DetectionError>)
    ensures
        result is Ok <==> parse_payload(data@) is Some,
        result is Ok ==> parse_payload(data@) == Some(models_of(result->Ok_0@)),
        result is Err ==> result->Err_0 == DetectionError::CodecError,
{
    let len = data.len();
    if len < 4 {
        return Err(DetectionError::CodecError);
    }
    let count = u32_from_le_bytes(slice_subrange(data, 0, 4)) as usize;
    assert(count == declared_count(data@));
    if (data.len() - 4) / RECORD_SIZE < count {
        return Err(DetectionError::CodecError);
    }
    assert(4 + count * 44 <= data@.len());
    let mut records: Vec<OrbRecord> = Vec::new();
    let mut i: usize = 0;
    while i < count
        invariant
            i <= count,
            len == data@.len(),
            count == declared_count(data@),
            4 + count * 44 <= data@.len(),
            records@.len() == i,
            forall|j: int| 0 <= j < i ==> (#[trigger] records@[j])@ == record_at(data@, j),
        decreases count - i,
    {
        let at = 4 + i * RECORD_SIZE;
        let x = u32_from_le_bytes(slice_subrange(data, at, at + 4));
        let y = u32_from_le_bytes(slice_subrange(data, at + 4, at + 8));
        let angle_bits = u32_from_le_bytes(slice_subrange(data, at + 8, at + 12));
        let mut descriptor = [0u8;32];
        let mut k: usize = 0;
        while k < DESCRIPTOR_SIZE
            invariant
                k <= 32,
                len == data@.len(),
                at + 44 <= data@.len(),
                forall|j: int| 0 <= j < k ==> descriptor@[j] == data@[at + 12 + j],
            decreases 32 - k,
        {
            descriptor[k] = data[at + 12 + k];
            k += 1;
        }
        assert(descriptor@ =~= data@.subrange(at + 12, at + 44));
        records.push(OrbRecord { x, y, angle_bits, descriptor });
        i += 1;
    }
    assert(models_of(records@) =~= Seq::new(
        declared_count(data@) as nat,
        |i: int| record_at(data@, i),
    ));
    Ok(records)
}

/// Encodes a list of records, at most the first fifty, as Base64 text.
/// Decoding the text gives back the records kept.
pub fn encode_orb(records: &Vec<OrbRecord>) -> (text: String)
    ensures
        text@ == base64_encode(payload_of(models_of(records@))),
        spec_decode_orb(text@) == Some(kept_models(models_of(records@))),
        records@.len() <= 50 ==> spec_decode_orb(text@) == Some(models_of(records@)),
{
    let data = serialize_features(records);
    proof {
        lemma_payload_round_trip(models_of(records@));
    }
    serialize_to_base64(data.as_slice())
}

/// Decodes Base64 payload text into records. Text that is no Base64, or
/// whose payload is cut short, is a codec error.
pub fn decode_orb(text: &str) -> (result: Result<Vec<OrbRecord>, DetectionError>)
    ensures
        result is Ok <==> spec_decode_orb(text@) is Some,
        result is Ok ==> spec_decode_orb(text@) == Some(models_of(result->Ok_0@)),
        result is Err ==> result->Err_0 == DetectionError::CodecError,
{
    match deserialize_from_base64(text) {
        Ok(data) => deserialize_features(data.as_slice()),
        Err(e) => Err(e),
    }
}

} // verus!
