//! The chain specification document: its model types, the strict mapping
//! between the JSON shape and the model, and the laws that mapping obeys.

use vstd::prelude::*;

use crate::codec::{
    dec_repr, dec_val, is_dec_digit, valid_u64_dec, CodecError, FixedHash, FlexibleNumber,
    HexBytes,
};
use crate::json::{
    bytes_eq, copy_range, json_to_text, lemma_view_list_index, lemma_view_members_index,
    parse_json, spec_json_text, spec_parse_json, view_json, view_list, view_members, JsonValue,
    SpecJson,
};

verus! {

/// Why a document failed to decode. Every error names the field it belongs
/// to; a failure of the outer JSON grammar carries an empty field name.
#[derive(Debug, Clone, PartialEq, Eq)]
pub enum DecodeError {
    Format { field: Vec<u8> },
    Length { field: Vec<u8>, actual: usize, expected: usize },
    UnknownField { field: Vec<u8> },
    MissingField { field: Vec<u8> },
    AmbiguousVariant { field: Vec<u8> },
}

/// The mathematical form of a decode failure.
#[verifier::ext_equal]
pub enum SpecErr {
    Format(Seq<u8>),
    Length(Seq<u8>, int, int),
    UnknownField(Seq<u8>),
    MissingField(Seq<u8>),
    AmbiguousVariant(Seq<u8>),
}

/// The view of an error value.
pub open spec fn view_err(e: DecodeError) -> SpecErr {
    match e {
        DecodeError::Format { field } => SpecErr::Format(field@),
        DecodeError::Length { field, actual, expected } => SpecErr::Length(
            field@,
            actual as int,
            expected as int,
        ),
        DecodeError::UnknownField { field } => SpecErr::UnknownField(field@),
        DecodeError::MissingField { field } => SpecErr::MissingField(field@),
        DecodeError::AmbiguousVariant { field } => SpecErr::AmbiguousVariant(field@),
    }
}

/// Deployment classification of a network.
#[derive(Debug, Clone, PartialEq, Eq)]
pub enum ChainType {
    Development,
    Local,
    Live,
    Custom(Vec<u8>),
}

impl Default for ChainType {
    /// The classification assumed when a document names none: a live chain.
    fn default() -> (r: Self)
        ensures
            r == ChainType::Live,
    {
        ChainType::Live
    }
}

/// The mathematical form of a chain type.
#[verifier::ext_equal]
pub enum SpecChainType {
    Development,
    Local,
    Live,
    Custom(Seq<u8>),
}

/// The view of a chain type.
pub open spec fn view_chain_type(ct: ChainType) -> SpecChainType {
    match ct {
        ChainType::Development => SpecChainType::Development,
        ChainType::Local => SpecChainType::Local,
        ChainType::Live => SpecChainType::Live,
        ChainType::Custom(s) => SpecChainType::Custom(s@),
    }
}

/// Raw storage of one child trie: its info bytes and numeric type tag.
#[derive(Debug, Clone, PartialEq, Eq)]
pub struct ChildStorage {
    pub child_info: Vec<u8>,
    pub child_type: u32,
}

/// The mathematical form of a child-storage entry.
#[verifier::ext_equal]
pub struct SpecChild {
    pub child_info: Seq<u8>,
    pub child_type: u32,
}

/// Optional parachain linkage, flattened into the top-level document.
#[derive(Debug, Clone, PartialEq, Eq)]
pub struct ParachainExtension {
    pub relay_chain: Vec<u8>,
    pub para_id: u32,
}

/// The initial state of the chain: raw storage maps, or a commitment hash.
#[derive(Debug)]
pub enum GenesisState {
    Raw { top: Vec<(HexBytes, HexBytes)>, children_default: Vec<(HexBytes, ChildStorage)> },
    StateRootHash(FixedHash),
}

/// The mathematical form of the genesis state.
#[verifier::ext_equal]
pub enum SpecGenesis {
    Raw { top: Seq<(Seq<u8>, Seq<u8>)>, children_default: Seq<(Seq<u8>, SpecChild)> },
    StateRootHash(Seq<u8>),
}

/// The view of a raw top-storage map.
pub open spec fn view_top(m: Seq<(HexBytes, HexBytes)>) -> Seq<(Seq<u8>, Seq<u8>)> {
    Seq::new(m.len(), |i: int| (m[i].0.bytes@, m[i].1.bytes@))
}

/// The view of a children-storage map.
pub open spec fn view_children(m: Seq<(HexBytes, ChildStorage)>) -> Seq<(Seq<u8>, SpecChild)> {
    Seq::new(
        m.len(),
        |i: int|
            (m[i].0.bytes@, SpecChild { child_info: m[i].1.child_info@, child_type: m[i].1.child_type }),
    )
}

/// The view of a genesis state.
pub open spec fn view_genesis(g: GenesisState) -> SpecGenesis {
    match g {
        GenesisState::Raw { top, children_default } => SpecGenesis::Raw {
            top: view_top(top@),
            children_default: view_children(children_default@),
        },
        GenesisState::StateRootHash(h) => SpecGenesis::StateRootHash(h.bytes@),
    }
}

/// The decoded document. The `properties` and `light_sync_state` fields are
/// structural passthroughs: their JSON content, member order and number
/// lexemes are preserved exactly, though re-encoding writes them in the
/// canonical compact text (string escapes and whitespace normalized).
#[derive(Debug)]
pub struct ChainSpecDocument {
    pub name: Vec<u8>,
    pub id: Vec<u8>,
    pub chain_type: ChainType,
    pub code_substitutes: Vec<(u64, HexBytes)>,
    pub boot_nodes: Vec<Vec<u8>>,
    pub telemetry_endpoints: Option<Vec<(Vec<u8>, u8)>>,
    pub protocol_id: Option<Vec<u8>>,
    pub fork_id: Option<Vec<u8>>,
    pub properties: Option<JsonValue>,
    pub fork_blocks: Option<Vec<(u64, FixedHash)>>,
    pub bad_blocks: Option<Vec<FixedHash>>,
    pub genesis: GenesisState,
    pub light_sync_state: Option<JsonValue>,
    pub parachain: Option<ParachainExtension>,
}

/// The mathematical form of a document.
#[verifier::ext_equal]
pub struct SpecDoc {
    pub name: Seq<u8>,
    pub id: Seq<u8>,
    pub chain_type: SpecChainType,
    pub code_substitutes: Seq<(u64, Seq<u8>)>,
    pub boot_nodes: Seq<Seq<u8>>,
    pub telemetry_endpoints: Option<Seq<(Seq<u8>, u8)>>,
    pub protocol_id: Option<Seq<u8>>,
    pub fork_id: Option<Seq<u8>>,
    pub properties: Option<SpecJson>,
    pub fork_blocks: Option<Seq<(u64, Seq<u8>)>>,
    pub bad_blocks: Option<Seq<Seq<u8>>>,
    pub genesis: SpecGenesis,
    pub light_sync_state: Option<SpecJson>,
    pub parachain: Option<(Seq<u8>, u32)>,
}

/// The view of a sequence of texts.
pub open spec fn view_texts(v: Seq<Vec<u8>>) -> Seq<Seq<u8>> {
    Seq::new(v.len(), |i: int| v[i]@)
}

/// The view of a code-substitutes map.
pub open spec fn view_cs(m: Seq<(u64, HexBytes)>) -> Seq<(u64, Seq<u8>)> {
    Seq::new(m.len(), |i: int| (m[i].0, m[i].1.bytes@))
}

/// The view of a fork-blocks list.
pub open spec fn view_fb(m: Seq<(u64, FixedHash)>) -> Seq<(u64, Seq<u8>)> {
    Seq::new(m.len(), |i: int| (m[i].0, m[i].1.bytes@))
}

/// The view of a hash list.
pub open spec fn view_hashes(m: Seq<FixedHash>) -> Seq<Seq<u8>> {
    Seq::new(m.len(), |i: int| m[i].bytes@)
}

/// The view of a telemetry-endpoints list.
pub open spec fn view_tel(m: Seq<(Vec<u8>, u8)>) -> Seq<(Seq<u8>, u8)> {
    Seq::new(m.len(), |i: int| (m[i].0@, m[i].1))
}

/// The view of an optional passthrough value.
pub open spec fn view_opt_json(v: Option<JsonValue>) -> Option<SpecJson> {
    match v {
        Option::None => Option::None,
        Option::Some(j) => Option::Some(view_json(j)),
    }
}

/// The view of a whole document.
pub open spec fn view_doc(d: ChainSpecDocument) -> SpecDoc {
    SpecDoc {
        name: d.name@,
        id: d.id@,
        chain_type: view_chain_type(d.chain_type),
        code_substitutes: view_cs(d.code_substitutes@),
        boot_nodes: view_texts(d.boot_nodes@),
        telemetry_endpoints: match d.telemetry_endpoints {
            Option::None => Option::None,
            Option::Some(v) => Option::Some(view_tel(v@)),
        },
        protocol_id: match d.protocol_id {
            Option::None => Option::None,
            Option::Some(v) => Option::Some(v@),
        },
        fork_id: match d.fork_id {
            Option::None => Option::None,
            Option::Some(v) => Option::Some(v@),
        },
        properties: view_opt_json(d.properties),
        fork_blocks: match d.fork_blocks {
            Option::None => Option::None,
            Option::Some(v) => Option::Some(view_fb(v@)),
        },
        bad_blocks: match d.bad_blocks {
            Option::None => Option::None,
            Option::Some(v) => Option::Some(view_hashes(v@)),
        },
        genesis: view_genesis(d.genesis),
        light_sync_state: view_opt_json(d.light_sync_state),
        parachain: match d.parachain {
            Option::None => Option::None,
            Option::Some(p) => Option::Some((p.relay_chain@, p.para_id)),
        },
    }
}

/// The text `name`.
pub open spec fn key_name() -> Seq<u8> {
    seq![110u8, 97u8, 109u8, 101u8]
}

/// The text `name`, as bytes.
pub fn key_name_vec() -> (r: Vec<u8>)
    ensures
        r@ == key_name(),
{
    let mut v: Vec<u8> = Vec::new();
    v.push(110u8);
    v.push(97u8);
    v.push(109u8);
    v.push(101u8);
    v
}

/// The text `id`.
pub open spec fn key_id() -> Seq<u8> {
    seq![105u8, 100u8]
}

/// The text `id`, as bytes.
pub fn key_id_vec() -> (r: Vec<u8>)
    ensures
        r@ == key_id(),
{
    let mut v: Vec<u8> = Vec::new();
    v.push(105u8);
    v.push(100u8);
    v
}

/// The text `chainType`.
pub open spec fn key_chain_type() -> Seq<u8> {
    seq![99u8, 104u8, 97u8, 105u8, 110u8, 84u8, 121u8, 112u8, 101u8]
}

/// The text `chainType`, as bytes.
pub fn key_chain_type_vec() -> (r: Vec<u8>)
    ensures
        r@ == key_chain_type(),
{
    let mut v: Vec<u8> = Vec::new();
    v.push(99u8);
    v.push(104u8);
    v.push(97u8);
    v.push(105u8);
    v.push(110u8);
    v.push(84u8);
    v.push(121u8);
    v.push(112u8);
    v.push(101u8);
    v
}

/// The text `codeSubstitutes`.
pub open spec fn key_code_substitutes() -> Seq<u8> {
    seq![99u8, 111u8, 100u8, 101u8, 83u8, 117u8, 98u8, 115u8, 116u8, 105u8, 116u8, 117u8, 116u8, 101u8, 115u8]
}

/// The text `codeSubstitutes`, as bytes.
pub fn key_code_substitutes_vec() -> (r: Vec<u8>)
    ensures
        r@ == key_code_substitutes(),
{
    let mut v: Vec<u8> = Vec::new();
    v.push(99u8);
    v.push(111u8);
    v.push(100u8);
    v.push(101u8);
    v.push(83u8);
    v.push(117u8);
    v.push(98u8);
    v.push(115u8);
    v.push(116u8);
    v.push(105u8);
    v.push(116u8);
    v.push(117u8);
    v.push(116u8);
    v.push(101u8);
    v.push(115u8);
    v
}

/// The text `bootNodes`.
pub open spec fn key_boot_nodes() -> Seq<u8> {
    seq![98u8, 111u8, 111u8, 116u8, 78u8, 111u8, 100u8, 101u8, 115u8]
}

/// The text `bootNodes`, as bytes.
pub fn key_boot_nodes_vec() -> (r: Vec<u8>)
    ensures
        r@ == key_boot_nodes(),
{
    let mut v: Vec<u8> = Vec::new();
    v.push(98u8);
    v.push(111u8);
    v.push(111u8);
    v.push(116u8);
    v.push(78u8);
    v.push(111u8);
    v.push(100u8);
    v.push(101u8);
    v.push(115u8);
    v
}

/// The text `telemetryEndpoints`.
pub open spec fn key_telemetry_endpoints() -> Seq<u8> {
    seq![116u8, 101u8, 108u8, 101u8, 109u8, 101u8, 116u8, 114u8, 121u8, 69u8, 110u8, 100u8, 112u8, 111u8, 105u8, 110u8, 116u8, 115u8]
}

/// The text `telemetryEndpoints`, as bytes.
pub fn key_telemetry_endpoints_vec() -> (r: Vec<u8>)
    ensures
        r@ == key_telemetry_endpoints(),
{
    let mut v: Vec<u8> = Vec::new();
    v.push(116u8);
    v.push(101u8);
    v.push(108u8);
    v.push(101u8);
    v.push(109u8);
    v.push(101u8);
    v.push(116u8);
    v.push(114u8);
    v.push(121u8);
    v.push(69u8);
    v.push(110u8);
    v.push(100u8);
    v.push(112u8);
    v.push(111u8);
    v.push(105u8);
    v.push(110u8);
    v.push(116u8);
    v.push(115u8);
    v
}

/// The text `protocolId`.
pub open spec fn key_protocol_id() -> Seq<u8> {
    seq![112u8, 114u8, 111u8, 116u8, 111u8, 99u8, 111u8, 108u8, 73u8, 100u8]
}

/// The text `protocolId`, as bytes.
pub fn key_protocol_id_vec() -> (r: Vec<u8>)
    ensures
        r@ == key_protocol_id(),
{
    let mut v: Vec<u8> = Vec::new();
    v.push(112u8);
    v.push(114u8);
    v.push(111u8);
    v.push(116u8);
    v.push(111u8);
    v.push(99u8);
    v.push(111u8);
    v.push(108u8);
    v.push(73u8);
    v.push(100u8);
    v
}

/// The text `forkId`.
pub open spec fn key_fork_id() -> Seq<u8> {
    seq![102u8, 111u8, 114u8, 107u8, 73u8, 100u8]
}

/// The text `forkId`, as bytes.
pub fn key_fork_id_vec() -> (r: Vec<u8>)
    ensures
        r@ == key_fork_id(),
{
    let mut v: Vec<u8> = Vec::new();
    v.push(102u8);
    v.push(111u8);
    v.push(114u8);
    v.push(107u8);
    v.push(73u8);
    v.push(100u8);
    v
}

/// The text `properties`.
pub open spec fn key_properties() -> Seq<u8> {
    seq![112u8, 114u8, 111u8, 112u8, 101u8, 114u8, 116u8, 105u8, 101u8, 115u8]
}

/// The text `properties`, as bytes.
pub fn key_properties_vec() -> (r: Vec<u8>)
    ensures
        r@ == key_properties(),
{
    let mut v: Vec<u8> = Vec::new();
    v.push(112u8);
    v.push(114u8);
    v.push(111u8);
    v.push(112u8);
    v.push(101u8);
    v.push(114u8);
    v.push(116u8);
    v.push(105u8);
    v.push(101u8);
    v.push(115u8);
    v
}

/// The text `forkBlocks`.
pub open spec fn key_fork_blocks() -> Seq<u8> {
    seq![102u8, 111u8, 114u8, 107u8, 66u8, 108u8, 111u8, 99u8, 107u8, 115u8]
}

/// The text `forkBlocks`, as bytes.
pub fn key_fork_blocks_vec() -> (r: Vec<u8>)
    ensures
        r@ == key_fork_blocks(),
{
    let mut v: Vec<u8> = Vec::new();
    v.push(102u8);
    v.push(111u8);
    v.push(114u8);
    v.push(107u8);
    v.push(66u8);
    v.push(108u8);
    v.push(111u8);
    v.push(99u8);
    v.push(107u8);
    v.push(115u8);
    v
}

/// The text `badBlocks`.
pub open spec fn key_bad_blocks() -> Seq<u8> {
    seq![98u8, 97u8, 100u8, 66u8, 108u8, 111u8, 99u8, 107u8, 115u8]
}

/// The text `badBlocks`, as bytes.
pub fn key_bad_blocks_vec() -> (r: Vec<u8>)
    ensures
        r@ == key_bad_blocks(),
{
    let mut v: Vec<u8> = Vec::new();
    v.push(98u8);
    v.push(97u8);
    v.push(100u8);
    v.push(66u8);
    v.push(108u8);
    v.push(111u8);
    v.push(99u8);
    v.push(107u8);
    v.push(115u8);
    v
}

/// The text `consensusEngine`.
pub open spec fn key_consensus_engine() -> Seq<u8> {
    seq![99u8, 111u8, 110u8, 115u8, 101u8, 110u8, 115u8, 117u8, 115u8, 69u8, 110u8, 103u8, 105u8, 110u8, 101u8]
}

/// The text `consensusEngine`, as bytes.
pub fn key_consensus_engine_vec() -> (r: Vec<u8>)
    ensures
        r@ == key_consensus_engine(),
{
    let mut v: Vec<u8> = Vec::new();
    v.push(99u8);
    v.push(111u8);
    v.push(110u8);
    v.push(115u8);
    v.push(101u8);
    v.push(110u8);
    v.push(115u8);
    v.push(117u8);
    v.push(115u8);
    v.push(69u8);
    v.push(110u8);
    v.push(103u8);
    v.push(105u8);
    v.push(110u8);
    v.push(101u8);
    v
}

/// The text `genesis`.
pub open spec fn key_genesis() -> Seq<u8> {
    seq![103u8, 101u8, 110u8, 101u8, 115u8, 105u8, 115u8]
}

/// The text `genesis`, as bytes.
pub fn key_genesis_vec() -> (r: Vec<u8>)
    ensures
        r@ == key_genesis(),
{
    let mut v: Vec<u8> = Vec::new();
    v.push(103u8);
    v.push(101u8);
    v.push(110u8);
    v.push(101u8);
    v.push(115u8);
    v.push(105u8);
    v.push(115u8);
    v
}

/// The text `lightSyncState`.
pub open spec fn key_light_sync_state() -> Seq<u8> {
    seq![108u8, 105u8, 103u8, 104u8, 116u8, 83u8, 121u8, 110u8, 99u8, 83u8, 116u8, 97u8, 116u8, 101u8]
}

/// The text `lightSyncState`, as bytes.
pub fn key_light_sync_state_vec() -> (r: Vec<u8>)
    ensures
        r@ == key_light_sync_state(),
{
    let mut v: Vec<u8> = Vec::new();
    v.push(108u8);
    v.push(105u8);
    v.push(103u8);
    v.push(104u8);
    v.push(116u8);
    v.push(83u8);
    v.push(121u8);
    v.push(110u8);
    v.push(99u8);
    v.push(83u8);
    v.push(116u8);
    v.push(97u8);
    v.push(116u8);
    v.push(101u8);
    v
}

/// The text `relayChain`.
pub open spec fn key_relay_chain() -> Seq<u8> {
    seq![114u8, 101u8, 108u8, 97u8, 121u8, 67u8, 104u8, 97u8, 105u8, 110u8]
}

/// The text `relayChain`, as bytes.
pub fn key_relay_chain_vec() -> (r: Vec<u8>)
    ensures
        r@ == key_relay_chain(),
{
    let mut v: Vec<u8> = Vec::new();
    v.push(114u8);
    v.push(101u8);
    v.push(108u8);
    v.push(97u8);
    v.push(121u8);
    v.push(67u8);
    v.push(104u8);
    v.push(97u8);
    v.push(105u8);
    v.push(110u8);
    v
}

/// The text `paraId`.
pub open spec fn key_para_id() -> Seq<u8> {
    seq![112u8, 97u8, 114u8, 97u8, 73u8, 100u8]
}

/// The text `paraId`, as bytes.
pub fn key_para_id_vec() -> (r: Vec<u8>)
    ensures
        r@ == key_para_id(),
{
    let mut v: Vec<u8> = Vec::new();
    v.push(112u8);
    v.push(97u8);
    v.push(114u8);
    v.push(97u8);
    v.push(73u8);
    v.push(100u8);
    v
}

/// The text `raw`.
pub open spec fn key_raw() -> Seq<u8> {
    seq![114u8, 97u8, 119u8]
}

/// The text `raw`, as bytes.
pub fn key_raw_vec() -> (r: Vec<u8>)
    ensures
        r@ == key_raw(),
{
    let mut v: Vec<u8> = Vec::new();
    v.push(114u8);
    v.push(97u8);
    v.push(119u8);
    v
}

/// The text `stateRootHash`.
pub open spec fn key_state_root_hash() -> Seq<u8> {
    seq![115u8, 116u8, 97u8, 116u8, 101u8, 82u8, 111u8, 111u8, 116u8, 72u8, 97u8, 115u8, 104u8]
}

/// The text `stateRootHash`, as bytes.
pub fn key_state_root_hash_vec() -> (r: Vec<u8>)
    ensures
        r@ == key_state_root_hash(),
{
    let mut v: Vec<u8> = Vec::new();
    v.push(115u8);
    v.push(116u8);
    v.push(97u8);
    v.push(116u8);
    v.push(101u8);
    v.push(82u8);
    v.push(111u8);
    v.push(111u8);
    v.push(116u8);
    v.push(72u8);
    v.push(97u8);
    v.push(115u8);
    v.push(104u8);
    v
}

/// The text `top`.
pub open spec fn key_top() -> Seq<u8> {
    seq![116u8, 111u8, 112u8]
}

/// The text `top`, as bytes.
pub fn key_top_vec() -> (r: Vec<u8>)
    ensures
        r@ == key_top(),
{
    let mut v: Vec<u8> = Vec::new();
    v.push(116u8);
    v.push(111u8);
    v.push(112u8);
    v
}

/// The text `childrenDefault`.
pub open spec fn key_children_default() -> Seq<u8> {
    seq![99u8, 104u8, 105u8, 108u8, 100u8, 114u8, 101u8, 110u8, 68u8, 101u8, 102u8, 97u8, 117u8, 108u8, 116u8]
}

/// The text `childrenDefault`, as bytes.
pub fn key_children_default_vec() -> (r: Vec<u8>)
    ensures
        r@ == key_children_default(),
{
    let mut v: Vec<u8> = Vec::new();
    v.push(99u8);
    v.push(104u8);
    v.push(105u8);
    v.push(108u8);
    v.push(100u8);
    v.push(114u8);
    v.push(101u8);
    v.push(110u8);
    v.push(68u8);
    v.push(101u8);
    v.push(102u8);
    v.push(97u8);
    v.push(117u8);
    v.push(108u8);
    v.push(116u8);
    v
}

/// The text `childInfo`.
pub open spec fn key_child_info() -> Seq<u8> {
    seq![99u8, 104u8, 105u8, 108u8, 100u8, 73u8, 110u8, 102u8, 111u8]
}

/// The text `childInfo`, as bytes.
pub fn key_child_info_vec() -> (r: Vec<u8>)
    ensures
        r@ == key_child_info(),
{
    let mut v: Vec<u8> = Vec::new();
    v.push(99u8);
    v.push(104u8);
    v.push(105u8);
    v.push(108u8);
    v.push(100u8);
    v.push(73u8);
    v.push(110u8);
    v.push(102u8);
    v.push(111u8);
    v
}

/// The text `childType`.
pub open spec fn key_child_type() -> Seq<u8> {
    seq![99u8, 104u8, 105u8, 108u8, 100u8, 84u8, 121u8, 112u8, 101u8]
}

/// The text `childType`, as bytes.
pub fn key_child_type_vec() -> (r: Vec<u8>)
    ensures
        r@ == key_child_type(),
{
    let mut v: Vec<u8> = Vec::new();
    v.push(99u8);
    v.push(104u8);
    v.push(105u8);
    v.push(108u8);
    v.push(100u8);
    v.push(84u8);
    v.push(121u8);
    v.push(112u8);
    v.push(101u8);
    v
}

/// The text `Development`.
pub open spec fn key_development() -> Seq<u8> {
    seq![68u8, 101u8, 118u8, 101u8, 108u8, 111u8, 112u8, 109u8, 101u8, 110u8, 116u8]
}

/// The text `Development`, as bytes.
pub fn key_development_vec() -> (r: Vec<u8>)
    ensures
        r@ == key_development(),
{
    let mut v: Vec<u8> = Vec::new();
    v.push(68u8);
    v.push(101u8);
    v.push(118u8);
    v.push(101u8);
    v.push(108u8);
    v.push(111u8);
    v.push(112u8);
    v.push(109u8);
    v.push(101u8);
    v.push(110u8);
    v.push(116u8);
    v
}

/// The text `Local`.
pub open spec fn key_local() -> Seq<u8> {
    seq![76u8, 111u8, 99u8, 97u8, 108u8]
}

/// The text `Local`, as bytes.
pub fn key_local_vec() -> (r: Vec<u8>)
    ensures
        r@ == key_local(),
{
    let mut v: Vec<u8> = Vec::new();
    v.push(76u8);
    v.push(111u8);
    v.push(99u8);
    v.push(97u8);
    v.push(108u8);
    v
}

/// The text `Live`.
pub open spec fn key_live() -> Seq<u8> {
    seq![76u8, 105u8, 118u8, 101u8]
}

/// The text `Live`, as bytes.
pub fn key_live_vec() -> (r: Vec<u8>)
    ensures
        r@ == key_live(),
{
    let mut v: Vec<u8> = Vec::new();
    v.push(76u8);
    v.push(105u8);
    v.push(118u8);
    v.push(101u8);
    v
}

/// The text `Custom`.
pub open spec fn key_custom() -> Seq<u8> {
    seq![67u8, 117u8, 115u8, 116u8, 111u8, 109u8]
}

/// The text `Custom`, as bytes.
pub fn key_custom_vec() -> (r: Vec<u8>)
    ensures
        r@ == key_custom(),
{
    let mut v: Vec<u8> = Vec::new();
    v.push(67u8);
    v.push(117u8);
    v.push(115u8);
    v.push(116u8);
    v.push(111u8);
    v.push(109u8);
    v
}

/// Unsigned lexicographic order on byte sequences.
pub open spec fn bytes_lt(a: Seq<u8>, b: Seq<u8>) -> bool
    decreases a.len(),
{
    if b.len() == 0 {
        false
    } else if a.len() == 0 {
        true
    } else if a[0] < b[0] {
        true
    } else if a[0] > b[0] {
        false
    } else {
        bytes_lt(a.drop_first(), b.drop_first())
    }
}

/// Whether a key exists among the members of an object.
pub open spec fn has_key(ms: Seq<(Seq<u8>, SpecJson)>, k: Seq<u8>) -> bool {
    exists|i: int| 0 <= i < ms.len() && (#[trigger] ms[i].0) == k
}

/// The value of the first member with the given key.
pub open spec fn lookup(ms: Seq<(Seq<u8>, SpecJson)>, k: Seq<u8>) -> SpecJson
    decreases ms.len(),
{
    if ms.len() == 0 {
        SpecJson::Null
    } else if ms[0].0 == k {
        ms[0].1
    } else {
        lookup(ms.drop_first(), k)
    }
}

/// The first member with a key matches the lookup.
pub proof fn lemma_lookup_first(ms: Seq<(Seq<u8>, SpecJson)>, k: Seq<u8>, i: int)
    requires
        0 <= i < ms.len(),
        ms[i].0 == k,
        forall|j: int| 0 <= j < i ==> (#[trigger] ms[j].0) != k,
    ensures
        has_key(ms, k),
        lookup(ms, k) == ms[i].1,
    decreases i,
{
    if i == 0 {
    } else {
        assert(ms[0].0 != k);
        lemma_lookup_first(ms.drop_first(), k, i - 1);
        assert(ms.drop_first()[i - 1] == ms[i]);
    }
}

} // verus!

// What follows gives the document grammar its mathematical meaning: one spec
// function per field, and one that decodes a whole document. The executable
// decoder is proved equal to them.

verus! {

/// The top-level whitelist: every recognized member name, the flattened
/// parachain names included.
pub open spec fn is_known_key(k: Seq<u8>) -> bool {
    k == key_name() || k == key_id() || k == key_chain_type() || k == key_code_substitutes()
        || k == key_boot_nodes() || k == key_telemetry_endpoints() || k == key_protocol_id()
        || k == key_fork_id() || k == key_properties() || k == key_fork_blocks()
        || k == key_bad_blocks() || k == key_consensus_engine() || k == key_genesis()
        || k == key_light_sync_state() || k == key_relay_chain() || k == key_para_id()
}

/// Scans the members in order: an unrecognized name is an unknown-field
/// error, a repeated name a format error.
pub open spec fn key_scan(ms: Seq<(Seq<u8>, SpecJson)>, j: int) -> Option<SpecErr>
    decreases ms.len() - j,
{
    if j < 0 || j >= ms.len() {
        Option::None
    } else if !is_known_key(ms[j].0) {
        Option::Some(SpecErr::UnknownField(ms[j].0))
    } else if exists|i: int| 0 <= i < j && (#[trigger] ms[i].0) == ms[j].0 {
        Option::Some(SpecErr::Format(ms[j].0))
    } else {
        key_scan(ms, j + 1)
    }
}

/// A required, non-empty text field.
pub open spec fn spec_req_text(ms: Seq<(Seq<u8>, SpecJson)>, k: Seq<u8>) -> Result<
    Seq<u8>,
    SpecErr,
> {
    if !has_key(ms, k) {
        Err(SpecErr::MissingField(k))
    } else {
        match lookup(ms, k) {
            SpecJson::Str(s) => if s.len() > 0 {
                Ok(s)
            } else {
                Err(SpecErr::Format(k))
            },
            _ => Err(SpecErr::Format(k)),
        }
    }
}

/// An optional text field: absent or null means none.
pub open spec fn spec_opt_text(ms: Seq<(Seq<u8>, SpecJson)>, k: Seq<u8>) -> Result<
    Option<Seq<u8>>,
    SpecErr,
> {
    if !has_key(ms, k) {
        Ok(Option::None)
    } else {
        match lookup(ms, k) {
            SpecJson::Null => Ok(Option::None),
            SpecJson::Str(s) => Ok(Option::Some(s)),
            _ => Err(SpecErr::Format(k)),
        }
    }
}

/// An optional passthrough field: absent or null means none, anything else
/// is kept whole.
pub open spec fn spec_opt_passthrough(ms: Seq<(Seq<u8>, SpecJson)>, k: Seq<u8>) -> Option<
    SpecJson,
> {
    if !has_key(ms, k) {
        Option::None
    } else {
        match lookup(ms, k) {
            SpecJson::Null => Option::None,
            v => Option::Some(v),
        }
    }
}

/// The chain-type field: a bare variant name, `{"Custom": name}`, or the
/// tagged map form of a bare variant with null content; absent means live.
pub open spec fn spec_chain_type_field(ms: Seq<(Seq<u8>, SpecJson)>) -> Result<
    SpecChainType,
    SpecErr,
> {
    if !has_key(ms, key_chain_type()) {
        Ok(SpecChainType::Live)
    } else {
        match lookup(ms, key_chain_type()) {
            SpecJson::Str(s) => if s == key_development() {
                Ok(SpecChainType::Development)
            } else if s == key_local() {
                Ok(SpecChainType::Local)
            } else if s == key_live() {
                Ok(SpecChainType::Live)
            } else {
                Err(SpecErr::Format(key_chain_type()))
            },
            SpecJson::Obj(inner) => if inner.len() == 1 && inner[0].0 == key_custom() {
                match inner[0].1 {
                    SpecJson::Str(s) => Ok(SpecChainType::Custom(s)),
                    _ => Err(SpecErr::Format(key_chain_type())),
                }
            } else if inner.len() == 1 && inner[0].0 == key_development() && inner[0].1
                == SpecJson::Null {
                Ok(SpecChainType::Development)
            } else if inner.len() == 1 && inner[0].0 == key_local() && inner[0].1
                == SpecJson::Null {
                Ok(SpecChainType::Local)
            } else if inner.len() == 1 && inner[0].0 == key_live() && inner[0].1
                == SpecJson::Null {
                Ok(SpecChainType::Live)
            } else {
                Err(SpecErr::Format(key_chain_type()))
            },
            _ => Err(SpecErr::Format(key_chain_type())),
        }
    }
}

/// The texts of a list of string values, if every item is a string.
pub open spec fn spec_texts_of(items: Seq<SpecJson>) -> Option<Seq<Seq<u8>>>
    decreases items.len(),
{
    if items.len() == 0 {
        Option::Some(Seq::empty())
    } else {
        match items[0] {
            SpecJson::Str(s) => match spec_texts_of(items.drop_first()) {
                Option::Some(rest) => Option::Some(seq![s] + rest),
                Option::None => Option::None,
            },
            _ => Option::None,
        }
    }
}

/// The required boot-node list.
pub open spec fn spec_boot_nodes(ms: Seq<(Seq<u8>, SpecJson)>) -> Result<Seq<Seq<u8>>, SpecErr> {
    if !has_key(ms, key_boot_nodes()) {
        Err(SpecErr::MissingField(key_boot_nodes()))
    } else {
        match lookup(ms, key_boot_nodes()) {
            SpecJson::Arr(items) => match spec_texts_of(items) {
                Option::Some(texts) => Ok(texts),
                Option::None => Err(SpecErr::Format(key_boot_nodes())),
            },
            _ => Err(SpecErr::Format(key_boot_nodes())),
        }
    }
}

/// The unsigned integer a number lexeme denotes, if it is plain decimal.
pub open spec fn lex_uint(lx: Seq<u8>) -> Option<int> {
    if lx.len() > 0 && (forall|i: int| 0 <= i < lx.len() ==> is_dec_digit(#[trigger] lx[i])) {
        Option::Some(dec_val(lx))
    } else {
        Option::None
    }
}

/// The telemetry pairs of a list of `[address, verbosity]` items.
pub open spec fn spec_tel_of(items: Seq<SpecJson>) -> Option<Seq<(Seq<u8>, u8)>>
    decreases items.len(),
{
    if items.len() == 0 {
        Option::Some(Seq::empty())
    } else {
        match items[0] {
            SpecJson::Arr(pair) => if pair.len() == 2 {
                match (pair[0], pair[1]) {
                    (SpecJson::Str(s), SpecJson::Num(lx)) => match lex_uint(lx) {
                        Option::Some(n) => if n <= 255 {
                            match spec_tel_of(items.drop_first()) {
                                Option::Some(rest) => Option::Some(seq![(s, n as u8)] + rest),
                                Option::None => Option::None,
                            }
                        } else {
                            Option::None
                        },
                        Option::None => Option::None,
                    },
                    _ => Option::None,
                }
            } else {
                Option::None
            },
            _ => Option::None,
        }
    }
}

/// The optional telemetry-endpoints field.
pub open spec fn spec_telemetry(ms: Seq<(Seq<u8>, SpecJson)>) -> Result<
    Option<Seq<(Seq<u8>, u8)>>,
    SpecErr,
> {
    if !has_key(ms, key_telemetry_endpoints()) {
        Ok(Option::None)
    } else {
        match lookup(ms, key_telemetry_endpoints()) {
            SpecJson::Null => Ok(Option::None),
            SpecJson::Arr(items) => match spec_tel_of(items) {
                Option::Some(tel) => Ok(Option::Some(tel)),
                Option::None => Err(SpecErr::Format(key_telemetry_endpoints())),
            },
            _ => Err(SpecErr::Format(key_telemetry_endpoints())),
        }
    }
}

/// Inserts into a map ordered by `u64` key, replacing an equal key.
pub open spec fn ins_u64(m: Seq<(u64, Seq<u8>)>, k: u64, v: Seq<u8>) -> Seq<(u64, Seq<u8>)>
    decreases m.len(),
{
    if m.len() == 0 {
        seq![(k, v)]
    } else if k < m[0].0 {
        seq![(k, v)] + m
    } else if k == m[0].0 {
        seq![(k, v)] + m.drop_first()
    } else {
        seq![m[0]] + ins_u64(m.drop_first(), k, v)
    }
}

/// Builds the code-substitutes map, member by member in document order.
pub open spec fn spec_cs_go(inner: Seq<(Seq<u8>, SpecJson)>, acc: Seq<(u64, Seq<u8>)>) -> Option<
    Seq<(u64, Seq<u8>)>,
>
    decreases inner.len(),
{
    if inner.len() == 0 {
        Option::Some(acc)
    } else {
        match FlexibleNumber::spec_decode(inner[0].0) {
            Ok(kn) => match inner[0].1 {
                SpecJson::Str(s) => match HexBytes::spec_decode(s) {
                    Ok(bs) => spec_cs_go(inner.drop_first(), ins_u64(acc, kn, bs)),
                    Err(_) => Option::None,
                },
                _ => Option::None,
            },
            Err(_) => Option::None,
        }
    }
}

/// The optional code-substitutes field: absent means empty.
pub open spec fn spec_code_substitutes(ms: Seq<(Seq<u8>, SpecJson)>) -> Result<
    Seq<(u64, Seq<u8>)>,
    SpecErr,
> {
    if !has_key(ms, key_code_substitutes()) {
        Ok(Seq::empty())
    } else {
        match lookup(ms, key_code_substitutes()) {
            SpecJson::Obj(inner) => match spec_cs_go(inner, Seq::empty()) {
                Option::Some(m) => Ok(m),
                Option::None => Err(SpecErr::Format(key_code_substitutes())),
            },
            _ => Err(SpecErr::Format(key_code_substitutes())),
        }
    }
}

/// The fork-block pairs of a list of `[number, hash]` items, in order.
pub open spec fn spec_fb_of(items: Seq<SpecJson>) -> Result<Seq<(u64, Seq<u8>)>, SpecErr>
    decreases items.len(),
{
    if items.len() == 0 {
        Ok(Seq::empty())
    } else {
        match items[0] {
            SpecJson::Arr(pair) => if pair.len() == 2 {
                match (pair[0], pair[1]) {
                    (SpecJson::Num(lx), SpecJson::Str(s)) => match lex_uint(lx) {
                        Option::Some(n) => if n <= u64::MAX {
                            match FixedHash::spec_decode(s) {
                                Ok(h) => match spec_fb_of(items.drop_first()) {
                                    Ok(rest) => Ok(seq![(n as u64, h)] + rest),
                                    Err(e) => Err(e),
                                },
                                Err(CodecError::Format) => Err(
                                    SpecErr::Format(key_fork_blocks()),
                                ),
                                Err(CodecError::Length { actual, expected }) => Err(
                                    SpecErr::Length(
                                        key_fork_blocks(),
                                        actual as int,
                                        expected as int,
                                    ),
                                ),
                            }
                        } else {
                            Err(SpecErr::Format(key_fork_blocks()))
                        },
                        Option::None => Err(SpecErr::Format(key_fork_blocks())),
                    },
                    _ => Err(SpecErr::Format(key_fork_blocks())),
                }
            } else {
                Err(SpecErr::Format(key_fork_blocks()))
            },
            _ => Err(SpecErr::Format(key_fork_blocks())),
        }
    }
}

/// The optional fork-blocks field.
pub open spec fn spec_fork_blocks(ms: Seq<(Seq<u8>, SpecJson)>) -> Result<
    Option<Seq<(u64, Seq<u8>)>>,
    SpecErr,
> {
    if !has_key(ms, key_fork_blocks()) {
        Ok(Option::None)
    } else {
        match lookup(ms, key_fork_blocks()) {
            SpecJson::Null => Ok(Option::None),
            SpecJson::Arr(items) => match spec_fb_of(items) {
                Ok(fb) => Ok(Option::Some(fb)),
                Err(e) => Err(e),
            },
            _ => Err(SpecErr::Format(key_fork_blocks())),
        }
    }
}

/// Inserts into a set of byte sequences ordered lexicographically; an equal
/// element collapses.
pub open spec fn ins_hash(m: Seq<Seq<u8>>, h: Seq<u8>) -> Seq<Seq<u8>>
    decreases m.len(),
{
    if m.len() == 0 {
        seq![h]
    } else if bytes_lt(h, m[0]) {
        seq![h] + m
    } else if h == m[0] {
        m
    } else {
        seq![m[0]] + ins_hash(m.drop_first(), h)
    }
}

/// Builds the bad-block set, item by item in document order.
pub open spec fn spec_bb_go(items: Seq<SpecJson>, acc: Seq<Seq<u8>>) -> Result<
    Seq<Seq<u8>>,
    SpecErr,
>
    decreases items.len(),
{
    if items.len() == 0 {
        Ok(acc)
    } else {
        match items[0] {
            SpecJson::Str(s) => match FixedHash::spec_decode(s) {
                Ok(h) => spec_bb_go(items.drop_first(), ins_hash(acc, h)),
                Err(CodecError::Format) => Err(SpecErr::Format(key_bad_blocks())),
                Err(CodecError::Length { actual, expected }) => Err(
                    SpecErr::Length(key_bad_blocks(), actual as int, expected as int),
                ),
            },
            _ => Err(SpecErr::Format(key_bad_blocks())),
        }
    }
}

/// The optional bad-blocks field: a set, ordered by byte value.
pub open spec fn spec_bad_blocks(ms: Seq<(Seq<u8>, SpecJson)>) -> Result<
    Option<Seq<Seq<u8>>>,
    SpecErr,
> {
    if !has_key(ms, key_bad_blocks()) {
        Ok(Option::None)
    } else {
        match lookup(ms, key_bad_blocks()) {
            SpecJson::Null => Ok(Option::None),
            SpecJson::Arr(items) => match spec_bb_go(items, Seq::empty()) {
                Ok(bb) => Ok(Option::Some(bb)),
                Err(e) => Err(e),
            },
            _ => Err(SpecErr::Format(key_bad_blocks())),
        }
    }
}

/// The vestigial consensus-engine field: accepted only as absent or null,
/// and never re-encoded.
pub open spec fn spec_consensus(ms: Seq<(Seq<u8>, SpecJson)>) -> Result<(), SpecErr> {
    if !has_key(ms, key_consensus_engine()) {
        Ok(())
    } else {
        match lookup(ms, key_consensus_engine()) {
            SpecJson::Null => Ok(()),
            _ => Err(SpecErr::Format(key_consensus_engine())),
        }
    }
}

/// Inserts into a map ordered lexicographically by byte key, replacing an
/// equal key.
pub open spec fn ins_bytes(m: Seq<(Seq<u8>, Seq<u8>)>, k: Seq<u8>, v: Seq<u8>) -> Seq<
    (Seq<u8>, Seq<u8>),
>
    decreases m.len(),
{
    if m.len() == 0 {
        seq![(k, v)]
    } else if bytes_lt(k, m[0].0) {
        seq![(k, v)] + m
    } else if k == m[0].0 {
        seq![(k, v)] + m.drop_first()
    } else {
        seq![m[0]] + ins_bytes(m.drop_first(), k, v)
    }
}

/// Builds the raw top storage, member by member in document order.
pub open spec fn spec_top_go(
    inner: Seq<(Seq<u8>, SpecJson)>,
    acc: Seq<(Seq<u8>, Seq<u8>)>,
) -> Option<Seq<(Seq<u8>, Seq<u8>)>>
    decreases inner.len(),
{
    if inner.len() == 0 {
        Option::Some(acc)
    } else {
        match HexBytes::spec_decode(inner[0].0) {
            Ok(kb) => match inner[0].1 {
                SpecJson::Str(s) => match HexBytes::spec_decode(s) {
                    Ok(vb) => spec_top_go(inner.drop_first(), ins_bytes(acc, kb, vb)),
                    Err(_) => Option::None,
                },
                _ => Option::None,
            },
            Err(_) => Option::None,
        }
    }
}

/// The byte values of a list of small numbers.
pub open spec fn spec_bytes_arr(items: Seq<SpecJson>) -> Option<Seq<u8>>
    decreases items.len(),
{
    if items.len() == 0 {
        Option::Some(Seq::empty())
    } else {
        match items[0] {
            SpecJson::Num(lx) => match lex_uint(lx) {
                Option::Some(n) => if n <= 255 {
                    match spec_bytes_arr(items.drop_first()) {
                        Option::Some(rest) => Option::Some(seq![n as u8] + rest),
                        Option::None => Option::None,
                    }
                } else {
                    Option::None
                },
                Option::None => Option::None,
            },
            _ => Option::None,
        }
    }
}

/// Scans a child object's member names: only `childInfo` and `childType`
/// are recognized, each at most once.
pub open spec fn child_scan(ms: Seq<(Seq<u8>, SpecJson)>, j: int) -> Option<SpecErr>
    decreases ms.len() - j,
{
    if j < 0 || j >= ms.len() {
        Option::None
    } else if !(ms[j].0 == key_child_info() || ms[j].0 == key_child_type()) {
        Option::Some(SpecErr::UnknownField(ms[j].0))
    } else if exists|i: int| 0 <= i < j && (#[trigger] ms[i].0) == ms[j].0 {
        Option::Some(SpecErr::Format(ms[j].0))
    } else {
        child_scan(ms, j + 1)
    }
}

/// One child-storage object: exactly the members `childInfo` and
/// `childType`.
pub open spec fn spec_child_of(v: SpecJson) -> Result<SpecChild, SpecErr> {
    match v {
        SpecJson::Obj(inner) => match child_scan(inner, 0) {
            Option::Some(e) => Err(e),
            Option::None => if !has_key(inner, key_child_info()) {
                Err(SpecErr::MissingField(key_child_info()))
            } else if !has_key(inner, key_child_type()) {
                Err(SpecErr::MissingField(key_child_type()))
            } else {
                let info = match lookup(inner, key_child_info()) {
                    SpecJson::Arr(items) => spec_bytes_arr(items),
                    _ => Option::None,
                };
                let ty = match lookup(inner, key_child_type()) {
                    SpecJson::Num(lx) => lex_uint(lx),
                    _ => Option::None,
                };
                match info {
                    Option::Some(ib) => match ty {
                        Option::Some(n) => if n <= u32::MAX {
                            Ok(SpecChild { child_info: ib, child_type: n as u32 })
                        } else {
                            Err(SpecErr::Format(key_child_type()))
                        },
                        Option::None => Err(SpecErr::Format(key_child_type())),
                    },
                    Option::None => Err(SpecErr::Format(key_child_info())),
                }
            },
        },
        _ => Err(SpecErr::Format(key_children_default())),
    }
}

/// Inserts into the children map, ordered lexicographically by byte key.
pub open spec fn ins_children(
    m: Seq<(Seq<u8>, SpecChild)>,
    k: Seq<u8>,
    c: SpecChild,
) -> Seq<(Seq<u8>, SpecChild)>
    decreases m.len(),
{
    if m.len() == 0 {
        seq![(k, c)]
    } else if bytes_lt(k, m[0].0) {
        seq![(k, c)] + m
    } else if k == m[0].0 {
        seq![(k, c)] + m.drop_first()
    } else {
        seq![m[0]] + ins_children(m.drop_first(), k, c)
    }
}

/// Builds the children map, member by member in document order.
pub open spec fn spec_children_go(
    inner: Seq<(Seq<u8>, SpecJson)>,
    acc: Seq<(Seq<u8>, SpecChild)>,
) -> Result<Seq<(Seq<u8>, SpecChild)>, SpecErr>
    decreases inner.len(),
{
    if inner.len() == 0 {
        Ok(acc)
    } else {
        match HexBytes::spec_decode(inner[0].0) {
            Ok(kb) => match spec_child_of(inner[0].1) {
                Ok(c) => spec_children_go(inner.drop_first(), ins_children(acc, kb, c)),
                Err(e) => Err(e),
            },
            Err(_) => Err(SpecErr::Format(key_children_default())),
        }
    }
}

/// Scans the raw-genesis member names: only `top` and `childrenDefault`
/// are recognized, each at most once.
pub open spec fn raw_scan(ms: Seq<(Seq<u8>, SpecJson)>, j: int) -> Option<SpecErr>
    decreases ms.len() - j,
{
    if j < 0 || j >= ms.len() {
        Option::None
    } else if !(ms[j].0 == key_top() || ms[j].0 == key_children_default()) {
        Option::Some(SpecErr::UnknownField(ms[j].0))
    } else if exists|i: int| 0 <= i < j && (#[trigger] ms[i].0) == ms[j].0 {
        Option::Some(SpecErr::Format(ms[j].0))
    } else {
        raw_scan(ms, j + 1)
    }
}

/// The `raw` genesis shape: exactly the members `top` and `childrenDefault`.
pub open spec fn spec_raw_genesis(v: SpecJson) -> Result<SpecGenesis, SpecErr> {
    match v {
        SpecJson::Obj(inner) => match raw_scan(inner, 0) {
            Option::Some(e) => Err(e),
            Option::None => if !has_key(inner, key_top()) {
                Err(SpecErr::MissingField(key_top()))
            } else if !has_key(inner, key_children_default()) {
                Err(SpecErr::MissingField(key_children_default()))
            } else {
                let top = match lookup(inner, key_top()) {
                    SpecJson::Obj(entries) => spec_top_go(entries, Seq::empty()),
                    _ => Option::None,
                };
                match top {
                    Option::Some(tm) => match lookup(inner, key_children_default()) {
                        SpecJson::Obj(entries) => match spec_children_go(entries, Seq::empty()) {
                            Ok(cd) => Ok(SpecGenesis::Raw { top: tm, children_default: cd }),
                            Err(e) => Err(e),
                        },
                        _ => Err(SpecErr::Format(key_children_default())),
                    },
                    Option::None => Err(SpecErr::Format(key_top())),
                }
            },
        },
        _ => Err(SpecErr::Format(key_raw())),
    }
}

/// The required genesis field: an object with exactly one recognized tag,
/// `raw` or `stateRootHash`.
pub open spec fn spec_genesis(ms: Seq<(Seq<u8>, SpecJson)>) -> Result<SpecGenesis, SpecErr> {
    if !has_key(ms, key_genesis()) {
        Err(SpecErr::MissingField(key_genesis()))
    } else {
        match lookup(ms, key_genesis()) {
            SpecJson::Obj(inner) => if inner.len() != 1 {
                Err(SpecErr::AmbiguousVariant(key_genesis()))
            } else if inner[0].0 == key_raw() {
                spec_raw_genesis(inner[0].1)
            } else if inner[0].0 == key_state_root_hash() {
                match inner[0].1 {
                    SpecJson::Str(s) => match FixedHash::spec_decode(s) {
                        Ok(h) => Ok(SpecGenesis::StateRootHash(h)),
                        Err(CodecError::Format) => Err(SpecErr::Format(key_state_root_hash())),
                        Err(CodecError::Length { actual, expected }) => Err(
                            SpecErr::Length(key_state_root_hash(), actual as int, expected as int),
                        ),
                    },
                    _ => Err(SpecErr::Format(key_state_root_hash())),
                }
            } else {
                Err(SpecErr::AmbiguousVariant(key_genesis()))
            },
            _ => Err(SpecErr::AmbiguousVariant(key_genesis())),
        }
    }
}

/// The flattened parachain fields: either both present or both absent.
pub open spec fn spec_parachain(ms: Seq<(Seq<u8>, SpecJson)>) -> Result<
    Option<(Seq<u8>, u32)>,
    SpecErr,
> {
    if !has_key(ms, key_relay_chain()) && !has_key(ms, key_para_id()) {
        Ok(Option::None)
    } else if !has_key(ms, key_para_id()) {
        Err(SpecErr::MissingField(key_para_id()))
    } else if !has_key(ms, key_relay_chain()) {
        Err(SpecErr::MissingField(key_relay_chain()))
    } else {
        match lookup(ms, key_relay_chain()) {
            SpecJson::Str(s) => match lookup(ms, key_para_id()) {
                SpecJson::Num(lx) => match lex_uint(lx) {
                    Option::Some(n) => if n <= u32::MAX {
                        Ok(Option::Some((s, n as u32)))
                    } else {
                        Err(SpecErr::Format(key_para_id()))
                    },
                    Option::None => Err(SpecErr::Format(key_para_id())),
                },
                _ => Err(SpecErr::Format(key_para_id())),
            },
            _ => Err(SpecErr::Format(key_relay_chain())),
        }
    }
}

/// What decoding a document value yields, for every JSON value: the model,
/// or the first error in reading order, fields checked in their canonical
/// order.
pub open spec fn spec_decode_doc(sj: SpecJson) -> Result<SpecDoc, SpecErr> {
    match sj {
        SpecJson::Obj(ms) => {
            match key_scan(ms, 0) {
                Option::Some(e) => Err(e),
                Option::None => {
                    let r_name = spec_req_text(ms, key_name());
                    let r_id = spec_req_text(ms, key_id());
                    let r_ct = spec_chain_type_field(ms);
                    let r_cs = spec_code_substitutes(ms);
                    let r_bn = spec_boot_nodes(ms);
                    let r_tel = spec_telemetry(ms);
                    let r_pid = spec_opt_text(ms, key_protocol_id());
                    let r_fid = spec_opt_text(ms, key_fork_id());
                    let r_fb = spec_fork_blocks(ms);
                    let r_bb = spec_bad_blocks(ms);
                    let r_ce = spec_consensus(ms);
                    let r_gen = spec_genesis(ms);
                    let r_para = spec_parachain(ms);
                    if r_name is Err {
                        Err(r_name->Err_0)
                    } else if r_id is Err {
                        Err(r_id->Err_0)
                    } else if r_ct is Err {
                        Err(r_ct->Err_0)
                    } else if r_cs is Err {
                        Err(r_cs->Err_0)
                    } else if r_bn is Err {
                        Err(r_bn->Err_0)
                    } else if r_tel is Err {
                        Err(r_tel->Err_0)
                    } else if r_pid is Err {
                        Err(r_pid->Err_0)
                    } else if r_fid is Err {
                        Err(r_fid->Err_0)
                    } else if r_fb is Err {
                        Err(r_fb->Err_0)
                    } else if r_bb is Err {
                        Err(r_bb->Err_0)
                    } else if r_ce is Err {
                        Err(r_ce->Err_0)
                    } else if r_gen is Err {
                        Err(r_gen->Err_0)
                    } else if r_para is Err {
                        Err(r_para->Err_0)
                    } else {
                        Ok(
                            SpecDoc {
                                name: r_name->Ok_0,
                                id: r_id->Ok_0,
                                chain_type: r_ct->Ok_0,
                                code_substitutes: r_cs->Ok_0,
                                boot_nodes: r_bn->Ok_0,
                                telemetry_endpoints: r_tel->Ok_0,
                                protocol_id: r_pid->Ok_0,
                                fork_id: r_fid->Ok_0,
                                properties: spec_opt_passthrough(ms, key_properties()),
                                fork_blocks: r_fb->Ok_0,
                                bad_blocks: r_bb->Ok_0,
                                genesis: r_gen->Ok_0,
                                light_sync_state: spec_opt_passthrough(
                                    ms,
                                    key_light_sync_state(),
                                ),
                                parachain: r_para->Ok_0,
                            },
                        )
                    }
                },
            }
        },
        _ => Err(SpecErr::Format(Seq::empty())),
    }
}

} // verus!

// The executable decoder: each helper is proved equal to its spec twin.

verus! {

/// First member with the given key, if any.
fn find_member<'a>(ms: &'a Vec<(Vec<u8>, JsonValue)>, key: &[u8]) -> (r: Option<&'a JsonValue>)
    ensures
        r is Some <==> has_key(view_members(ms@), key@),
        r is Some ==> view_json(*r.unwrap()) == lookup(view_members(ms@), key@),
{
    proof {
        lemma_view_members_index(ms@);
    }
    let ghost msv = view_members(ms@);
    let mut i: usize = 0;
    while i < ms.len()
        invariant
            0 <= i <= ms@.len(),
            msv == view_members(ms@),
            msv.len() == ms@.len(),
            forall|j: int|
                0 <= j < ms@.len() ==> msv[j] == (#[trigger] ms@[j].0@, view_json(ms@[j].1)),
            forall|j: int| 0 <= j < i ==> (#[trigger] msv[j].0) != key@,
        decreases ms@.len() - i,
    {
        if bytes_eq(ms[i].0.as_slice(), key) {
            proof {
                lemma_lookup_first(msv, key@, i as int);
            }
            return Some(&ms[i].1);
        }
        i = i + 1;
    }
    proof {
        assert(!has_key(msv, key@));
    }
    None
}

/// A fresh copy of a byte vector.
fn copy_bytes(s: &Vec<u8>) -> (r: Vec<u8>)
    ensures
        r@ == s@,
{
    let r = copy_range(s.as_slice(), 0, s.len());
    proof {
        assert(s@.subrange(0, s@.len() as int) =~= s@);
    }
    r
}

/// A structural copy of a JSON value.
#[verifier::loop_isolation(false)]
fn clone_json(v: &JsonValue) -> (r: JsonValue)
    ensures
        view_json(r) == view_json(*v),
    decreases *v,
{
    match v {
        JsonValue::Null => JsonValue::Null,
        JsonValue::Bool(b) => JsonValue::Bool(*b),
        JsonValue::Num(lx) => JsonValue::Num(copy_bytes(lx)),
        JsonValue::Str(s) => JsonValue::Str(copy_bytes(s)),
        JsonValue::Arr(items) => {
            let mut out: Vec<JsonValue> = Vec::new();
            let mut i: usize = 0;
            proof {
                lemma_view_list_index(items@);
            }
            while i < items.len()
                invariant
                    0 <= i <= items@.len(),
                    out@.len() == i,
                    forall|j: int|
                        0 <= j < i ==> view_json(#[trigger] out@[j]) == view_json(items@[j]),
                decreases items@.len() - i,
            {
                proof {
                    assert(*v == JsonValue::Arr(*items));
                    assert(decreases_to!(JsonValue::Arr(*items) => *items));
                    assert(decreases_to!(*items => items@[i as int]));
                }
                let c = clone_json(&items[i]);
                out.push(c);
                i = i + 1;
            }
            proof {
                lemma_view_list_index(out@);
                assert(out@.len() == items@.len());
                assert forall|j: int|
                    0 <= j < out@.len() implies view_list(out@)[j] == view_list(items@)[j] by {
                    assert(view_json(out@[j]) == view_json(items@[j]));
                    assert(view_list(out@)[j] == view_json(out@[j]));
                    assert(view_list(items@)[j] == view_json(items@[j]));
                }
                assert(view_list(out@) =~= view_list(items@));
            }
            JsonValue::Arr(out)
        },
        JsonValue::Obj(ms) => {
            let mut out: Vec<(Vec<u8>, JsonValue)> = Vec::new();
            let mut i: usize = 0;
            proof {
                lemma_view_members_index(ms@);
            }
            while i < ms.len()
                invariant
                    0 <= i <= ms@.len(),
                    out@.len() == i,
                    forall|j: int|
                        0 <= j < i ==> (#[trigger] out@[j].0@) == ms@[j].0@ && view_json(
                            out@[j].1,
                        ) == view_json(ms@[j].1),
                decreases ms@.len() - i,
            {
                proof {
                    assert(*v == JsonValue::Obj(*ms));
                    assert(decreases_to!(JsonValue::Obj(*ms) => *ms));
                    assert(decreases_to!(*ms => ms@[i as int]));
                    assert(decreases_to!(ms@[i as int] => ms@[i as int].1));
                }
                let k = copy_bytes(&ms[i].0);
                let c = clone_json(&ms[i].1);
                out.push((k, c));
                i = i + 1;
            }
            proof {
                lemma_view_members_index(out@);
                assert(out@.len() == ms@.len());
                assert forall|j: int|
                    0 <= j < out@.len() implies view_members(out@)[j] == view_members(ms@)[j] by {
                    assert(out@[j].0@ == ms@[j].0@ && view_json(out@[j].1) == view_json(ms@[j].1));
                    assert(view_members(out@)[j] == (out@[j].0@, view_json(out@[j].1)));
                    assert(view_members(ms@)[j] == (ms@[j].0@, view_json(ms@[j].1)));
                }
                assert(view_members(out@) =~= view_members(ms@));
            }
            JsonValue::Obj(out)
        },
    }
}

/// Decodes a required, non-empty text field.
fn get_req_text(ms: &Vec<(Vec<u8>, JsonValue)>, key: &[u8]) -> (r: Result<Vec<u8>, DecodeError>)
    ensures
        match r {
            Ok(s) => spec_req_text(view_members(ms@), key@) == Ok::<Seq<u8>, SpecErr>(s@),
            Err(e) => spec_req_text(view_members(ms@), key@) == Err::<Seq<u8>, SpecErr>(
                view_err(e),
            ),
        },
{
    let key_copy = copy_range(key, 0, key.len());
    proof {
        assert(key_copy@ =~= key@);
    }
    match find_member(ms, key) {
        None => Err(DecodeError::MissingField { field: key_copy }),
        Some(v) => match v {
            JsonValue::Str(s) => {
                if s.len() > 0 {
                    Ok(copy_bytes(s))
                } else {
                    Err(DecodeError::Format { field: key_copy })
                }
            },
            _ => Err(DecodeError::Format { field: key_copy }),
        },
    }
}

/// Decodes an optional text field.
fn get_opt_text(ms: &Vec<(Vec<u8>, JsonValue)>, key: &[u8]) -> (r: Result<
    Option<Vec<u8>>,
    DecodeError,
>)
    ensures
        match r {
            Ok(s) => spec_opt_text(view_members(ms@), key@) == Ok::<Option<Seq<u8>>, SpecErr>(
                match s {
                    Option::None => Option::None,
                    Option::Some(t) => Option::Some(t@),
                },
            ),
            Err(e) => spec_opt_text(view_members(ms@), key@) == Err::<Option<Seq<u8>>, SpecErr>(
                view_err(e),
            ),
        },
{
    match find_member(ms, key) {
        None => Ok(None),
        Some(v) => match v {
            JsonValue::Null => Ok(None),
            JsonValue::Str(s) => Ok(Some(copy_bytes(s))),
            _ => Err(
                DecodeError::Format {
                    field: {
                        let key_copy = copy_range(key, 0, key.len());
                        proof {
                            assert(key_copy@ =~= key@);
                        }
                        key_copy
                    },
                },
            ),
        },
    }
}

/// Keeps an optional passthrough field whole.
fn get_passthrough(ms: &Vec<(Vec<u8>, JsonValue)>, key: &[u8]) -> (r: Option<JsonValue>)
    ensures
        spec_opt_passthrough(view_members(ms@), key@) == match r {
            Option::None => Option::None::<SpecJson>,
            Option::Some(v) => Option::Some(view_json(v)),
        },
{
    match find_member(ms, key) {
        None => None,
        Some(v) => match v {
            JsonValue::Null => None,
            other => Some(clone_json(other)),
        },
    }
}

/// Decodes the chain-type field.
fn get_chain_type(ms: &Vec<(Vec<u8>, JsonValue)>) -> (r: Result<ChainType, DecodeError>)
    ensures
        match r {
            Ok(ct) => spec_chain_type_field(view_members(ms@)) == Ok::<SpecChainType, SpecErr>(
                view_chain_type(ct),
            ),
            Err(e) => spec_chain_type_field(view_members(ms@)) == Err::<SpecChainType, SpecErr>(
                view_err(e),
            ),
        },
{
    let key = key_chain_type_vec();
    match find_member(ms, key.as_slice()) {
        None => Ok(ChainType::Live),
        Some(v) => match v {
            JsonValue::Str(s) => {
                let dev = key_development_vec();
                let loc = key_local_vec();
                let live = key_live_vec();
                if bytes_eq(s.as_slice(), dev.as_slice()) {
                    Ok(ChainType::Development)
                } else if bytes_eq(s.as_slice(), loc.as_slice()) {
                    Ok(ChainType::Local)
                } else if bytes_eq(s.as_slice(), live.as_slice()) {
                    Ok(ChainType::Live)
                } else {
                    Err(DecodeError::Format { field: key })
                }
            },
            JsonValue::Obj(inner) => {
                proof {
                    lemma_view_members_index(inner@);
                }
                let custom = key_custom_vec();
                let dev = key_development_vec();
                let loc = key_local_vec();
                let live = key_live_vec();
                if inner.len() == 1 && bytes_eq(inner[0].0.as_slice(), custom.as_slice()) {
                    match &inner[0].1 {
                        JsonValue::Str(s) => Ok(ChainType::Custom(copy_bytes(s))),
                        _ => Err(DecodeError::Format { field: key }),
                    }
                } else if inner.len() == 1 && bytes_eq(inner[0].0.as_slice(), dev.as_slice()) {
                    match &inner[0].1 {
                        JsonValue::Null => Ok(ChainType::Development),
                        _ => Err(DecodeError::Format { field: key }),
                    }
                } else if inner.len() == 1 && bytes_eq(inner[0].0.as_slice(), loc.as_slice()) {
                    match &inner[0].1 {
                        JsonValue::Null => Ok(ChainType::Local),
                        _ => Err(DecodeError::Format { field: key }),
                    }
                } else if inner.len() == 1 && bytes_eq(inner[0].0.as_slice(), live.as_slice()) {
                    match &inner[0].1 {
                        JsonValue::Null => Ok(ChainType::Live),
                        _ => Err(DecodeError::Format { field: key }),
                    }
                } else {
                    Err(DecodeError::Format { field: key })
                }
            },
            _ => Err(DecodeError::Format { field: key }),
        },
    }
}

/// Checks the vestigial consensus-engine field.
fn check_consensus(ms: &Vec<(Vec<u8>, JsonValue)>) -> (r: Result<(), DecodeError>)
    ensures
        match r {
            Ok(_) => spec_consensus(view_members(ms@)) == Ok::<(), SpecErr>(()),
            Err(e) => spec_consensus(view_members(ms@)) == Err::<(), SpecErr>(view_err(e)),
        },
{
    let key = key_consensus_engine_vec();
    match find_member(ms, key.as_slice()) {
        None => Ok(()),
        Some(v) => match v {
            JsonValue::Null => Ok(()),
            _ => Err(DecodeError::Format { field: key }),
        },
    }
}

/// Whether a member name belongs to the top-level whitelist.
fn is_known_key_exec(k: &[u8]) -> (r: bool)
    ensures
        r == is_known_key(k@),
{
    let k1 = key_name_vec();
    let k2 = key_id_vec();
    let k3 = key_chain_type_vec();
    let k4 = key_code_substitutes_vec();
    let k5 = key_boot_nodes_vec();
    let k6 = key_telemetry_endpoints_vec();
    let k7 = key_protocol_id_vec();
    let k8 = key_fork_id_vec();
    let k9 = key_properties_vec();
    let k10 = key_fork_blocks_vec();
    let k11 = key_bad_blocks_vec();
    let k12 = key_consensus_engine_vec();
    let k13 = key_genesis_vec();
    let k14 = key_light_sync_state_vec();
    let k15 = key_relay_chain_vec();
    let k16 = key_para_id_vec();
    bytes_eq(k, k1.as_slice()) || bytes_eq(k, k2.as_slice()) || bytes_eq(k, k3.as_slice())
        || bytes_eq(k, k4.as_slice()) || bytes_eq(k, k5.as_slice()) || bytes_eq(k, k6.as_slice())
        || bytes_eq(k, k7.as_slice()) || bytes_eq(k, k8.as_slice()) || bytes_eq(k, k9.as_slice())
        || bytes_eq(k, k10.as_slice()) || bytes_eq(k, k11.as_slice()) || bytes_eq(
        k,
        k12.as_slice(),
    ) || bytes_eq(k, k13.as_slice()) || bytes_eq(k, k14.as_slice()) || bytes_eq(
        k,
        k15.as_slice(),
    ) || bytes_eq(k, k16.as_slice())
}

/// Scans the member names against the whitelist and for repeats.
#[verifier::loop_isolation(false)]
fn scan_keys(ms: &Vec<(Vec<u8>, JsonValue)>) -> (r: Option<DecodeError>)
    ensures
        match r {
            Option::Some(e) => key_scan(view_members(ms@), 0) == Option::Some(view_err(e)),
            Option::None => key_scan(view_members(ms@), 0) == Option::None::<SpecErr>,
        },
{
    proof {
        lemma_view_members_index(ms@);
    }
    let ghost msv = view_members(ms@);
    let mut j: usize = 0;
    while j < ms.len()
        invariant
            0 <= j <= ms@.len(),
            msv == view_members(ms@),
            msv.len() == ms@.len(),
            forall|t: int|
                0 <= t < ms@.len() ==> msv[t] == (#[trigger] ms@[t].0@, view_json(ms@[t].1)),
            key_scan(msv, 0) == key_scan(msv, j as int),
        decreases ms@.len() - j,
    {
        if !is_known_key_exec(ms[j].0.as_slice()) {
            let field = copy_bytes(&ms[j].0);
            return Some(DecodeError::UnknownField { field });
        }
        let mut i: usize = 0;
        while i < j
            invariant
                0 <= i <= j < ms@.len(),
                msv.len() == ms@.len(),
                forall|t: int|
                    0 <= t < ms@.len() ==> msv[t] == (#[trigger] ms@[t].0@, view_json(ms@[t].1)),
                forall|t: int| 0 <= t < i ==> (#[trigger] msv[t].0) != msv[j as int].0,
            decreases j - i,
        {
            if bytes_eq(ms[i].0.as_slice(), ms[j].0.as_slice()) {
                let field = copy_bytes(&ms[j].0);
                proof {
                    assert(msv[i as int].0 == ms@[i as int].0@);
                    assert(msv[j as int].0 == ms@[j as int].0@);
                    assert(msv[i as int].0 == msv[j as int].0);
                    assert(exists|t: int| 0 <= t < j && (#[trigger] msv[t].0) == msv[j as int].0);
                    assert(is_known_key(msv[j as int].0));
                    assert(key_scan(msv, j as int) == Option::Some(
                        SpecErr::Format(msv[j as int].0),
                    ));
                }
                return Some(DecodeError::Format { field });
            }
            i = i + 1;
        }
        proof {
            assert(!(exists|t: int| 0 <= t < j && (#[trigger] msv[t].0) == msv[j as int].0));
        }
        j = j + 1;
    }
    None
}

} // verus!

// Sorted insertion, executable: each function is proved equal to its spec
// twin over the views.

verus! {

/// Compares byte sequences lexicographically, from position `i` on.
fn bytes_lt_from(a: &[u8], b: &[u8], i: usize) -> (r: bool)
    requires
        i <= a.len(),
        i <= b.len(),
    ensures
        r == bytes_lt(a@.skip(i as int), b@.skip(i as int)),
    decreases a.len() - i,
{
    if i == b.len() {
        proof {
            assert(b@.skip(i as int).len() == 0);
        }
        false
    } else if i == a.len() {
        proof {
            assert(a@.skip(i as int).len() == 0);
            assert(b@.skip(i as int).len() > 0);
        }
        true
    } else {
        proof {
            assert(a@.skip(i as int)[0] == a@[i as int]);
            assert(b@.skip(i as int)[0] == b@[i as int]);
            assert(a@.skip(i as int).drop_first() =~= a@.skip(i + 1));
            assert(b@.skip(i as int).drop_first() =~= b@.skip(i + 1));
        }
        if a[i] < b[i] {
            true
        } else if a[i] > b[i] {
            false
        } else {
            bytes_lt_from(a, b, i + 1)
        }
    }
}

/// Whether `a` comes strictly before `b` in byte order.
pub fn bytes_lt_exec(a: &[u8], b: &[u8]) -> (r: bool)
    ensures
        r == bytes_lt(a@, b@),
{
    let r = bytes_lt_from(a, b, 0);
    proof {
        assert(a@.skip(0) =~= a@);
        assert(b@.skip(0) =~= b@);
    }
    r
}

/// Inserts into the code-substitutes map, keeping it ordered by key.
fn ins_u64_exec(m: Vec<(u64, HexBytes)>, k: u64, v: HexBytes) -> (r: Vec<(u64, HexBytes)>)
    ensures
        view_cs(r@) == ins_u64(view_cs(m@), k, v.bytes@),
    decreases m@.len(),
{
    let ghost m0 = m@;
    let mut m = m;
    if m.len() == 0 {
        m.push((k, v));
        proof {
            assert(view_cs(m@) =~= ins_u64(view_cs(m0), k, v.bytes@));
        }
        m
    } else if k < m[0].0 {
        m.insert(0, (k, v));
        proof {
            assert(view_cs(m@) =~= seq![(k, v.bytes@)] + view_cs(m0));
            assert(ins_u64(view_cs(m0), k, v.bytes@) =~= seq![(k, v.bytes@)] + view_cs(m0));
        }
        m
    } else if k == m[0].0 {
        m.set(0, (k, v));
        proof {
            assert(view_cs(m@) =~= seq![(k, v.bytes@)] + view_cs(m0).drop_first());
            assert(ins_u64(view_cs(m0), k, v.bytes@) =~= seq![(k, v.bytes@)] + view_cs(
                m0,
            ).drop_first());
        }
        m
    } else {
        let first = m.remove(0);
        let ghost m1 = m@;
        proof {
            assert(view_cs(m1) =~= view_cs(m0).drop_first());
        }
        let mut rest = ins_u64_exec(m, k, v);
        rest.insert(0, first);
        proof {
            assert(view_cs(rest@) =~= seq![view_cs(m0)[0]] + ins_u64(
                view_cs(m0).drop_first(),
                k,
                v.bytes@,
            ));
            assert(ins_u64(view_cs(m0), k, v.bytes@) == seq![view_cs(m0)[0]] + ins_u64(
                view_cs(m0).drop_first(),
                k,
                v.bytes@,
            ));
        }
        rest
    }
}

/// Inserts into the raw top storage, keeping it ordered by key bytes.
fn ins_bytes_exec(
    m: Vec<(HexBytes, HexBytes)>,
    k: HexBytes,
    v: HexBytes,
) -> (r: Vec<(HexBytes, HexBytes)>)
    ensures
        view_top(r@) == ins_bytes(view_top(m@), k.bytes@, v.bytes@),
    decreases m@.len(),
{
    let ghost m0 = m@;
    let mut m = m;
    if m.len() == 0 {
        m.push((k, v));
        proof {
            assert(view_top(m@) =~= ins_bytes(view_top(m0), k.bytes@, v.bytes@));
        }
        m
    } else if bytes_lt_exec(k.bytes.as_slice(), m[0].0.bytes.as_slice()) {
        m.insert(0, (k, v));
        proof {
            assert(view_top(m@) =~= seq![(k.bytes@, v.bytes@)] + view_top(m0));
            assert(ins_bytes(view_top(m0), k.bytes@, v.bytes@) =~= seq![(k.bytes@, v.bytes@)]
                + view_top(m0));
        }
        m
    } else if bytes_eq(k.bytes.as_slice(), m[0].0.bytes.as_slice()) {
        m.set(0, (k, v));
        proof {
            assert(view_top(m@) =~= seq![(k.bytes@, v.bytes@)] + view_top(m0).drop_first());
            assert(ins_bytes(view_top(m0), k.bytes@, v.bytes@) =~= seq![(k.bytes@, v.bytes@)]
                + view_top(m0).drop_first());
        }
        m
    } else {
        let first = m.remove(0);
        let ghost m1 = m@;
        proof {
            assert(view_top(m1) =~= view_top(m0).drop_first());
        }
        let mut rest = ins_bytes_exec(m, k, v);
        rest.insert(0, first);
        proof {
            assert(view_top(rest@) =~= seq![view_top(m0)[0]] + ins_bytes(
                view_top(m0).drop_first(),
                k.bytes@,
                v.bytes@,
            ));
            assert(ins_bytes(view_top(m0), k.bytes@, v.bytes@) == seq![view_top(m0)[0]]
                + ins_bytes(view_top(m0).drop_first(), k.bytes@, v.bytes@));
        }
        rest
    }
}

/// Inserts into the children map, keeping it ordered by key bytes.
fn ins_children_exec(
    m: Vec<(HexBytes, ChildStorage)>,
    k: HexBytes,
    c: ChildStorage,
) -> (r: Vec<(HexBytes, ChildStorage)>)
    ensures
        view_children(r@) == ins_children(
            view_children(m@),
            k.bytes@,
            SpecChild { child_info: c.child_info@, child_type: c.child_type },
        ),
    decreases m@.len(),
{
    let ghost m0 = m@;
    let ghost cv = SpecChild { child_info: c.child_info@, child_type: c.child_type };
    let mut m = m;
    if m.len() == 0 {
        m.push((k, c));
        proof {
            assert(view_children(m@) =~= ins_children(view_children(m0), k.bytes@, cv));
        }
        m
    } else if bytes_lt_exec(k.bytes.as_slice(), m[0].0.bytes.as_slice()) {
        m.insert(0, (k, c));
        proof {
            assert(view_children(m@) =~= seq![(k.bytes@, cv)] + view_children(m0));
            assert(ins_children(view_children(m0), k.bytes@, cv) =~= seq![(k.bytes@, cv)]
                + view_children(m0));
        }
        m
    } else if bytes_eq(k.bytes.as_slice(), m[0].0.bytes.as_slice()) {
        m.set(0, (k, c));
        proof {
            assert(view_children(m@) =~= seq![(k.bytes@, cv)] + view_children(m0).drop_first());
            assert(ins_children(view_children(m0), k.bytes@, cv) =~= seq![(k.bytes@, cv)]
                + view_children(m0).drop_first());
        }
        m
    } else {
        let first = m.remove(0);
        let ghost m1 = m@;
        proof {
            assert(view_children(m1) =~= view_children(m0).drop_first());
        }
        let mut rest = ins_children_exec(m, k, c);
        rest.insert(0, first);
        proof {
            assert(view_children(rest@) =~= seq![view_children(m0)[0]] + ins_children(
                view_children(m0).drop_first(),
                k.bytes@,
                cv,
            ));
            assert(ins_children(view_children(m0), k.bytes@, cv) == seq![view_children(m0)[0]]
                + ins_children(view_children(m0).drop_first(), k.bytes@, cv));
        }
        rest
    }
}

/// Inserts into the bad-block set, keeping it ordered and duplicate-free.
fn ins_hash_exec(m: Vec<FixedHash>, h: FixedHash) -> (r: Vec<FixedHash>)
    ensures
        view_hashes(r@) == ins_hash(view_hashes(m@), h.bytes@),
    decreases m@.len(),
{
    let ghost m0 = m@;
    let mut m = m;
    if m.len() == 0 {
        m.push(h);
        proof {
            assert(view_hashes(m@) =~= ins_hash(view_hashes(m0), h.bytes@));
        }
        m
    } else if bytes_lt_exec(h.bytes.as_slice(), m[0].bytes.as_slice()) {
        m.insert(0, h);
        proof {
            assert(view_hashes(m@) =~= seq![h.bytes@] + view_hashes(m0));
            assert(ins_hash(view_hashes(m0), h.bytes@) =~= seq![h.bytes@] + view_hashes(m0));
        }
        m
    } else if bytes_eq(h.bytes.as_slice(), m[0].bytes.as_slice()) {
        proof {
            assert(ins_hash(view_hashes(m0), h.bytes@) == view_hashes(m0));
        }
        m
    } else {
        let first = m.remove(0);
        let ghost m1 = m@;
        proof {
            assert(view_hashes(m1) =~= view_hashes(m0).drop_first());
        }
        let mut rest = ins_hash_exec(m, h);
        rest.insert(0, first);
        proof {
            assert(view_hashes(rest@) =~= seq![view_hashes(m0)[0]] + ins_hash(
                view_hashes(m0).drop_first(),
                h.bytes@,
            ));
            assert(ins_hash(view_hashes(m0), h.bytes@) == seq![view_hashes(m0)[0]] + ins_hash(
                view_hashes(m0).drop_first(),
                h.bytes@,
            ));
        }
        rest
    }
}

} // verus!

// The list and map builders of the decoder, each proved equal to its spec
// twin on the remaining suffix.

verus! {

/// Reads an unsigned integer lexeme; reports an out-of-range value exactly.
fn lex_uint_exec(lx: &Vec<u8>) -> (r: Option<u64>)
    ensures
        match r {
            Option::Some(n) => lex_uint(lx@) == Option::Some(n as int),
            Option::None => match lex_uint(lx@) {
                Option::Some(m) => m > u64::MAX,
                Option::None => true,
            },
        },
{
    let r = crate::codec::parse_u64_dec(lx.as_slice());
    proof {
        if r is Some {
            assert(valid_u64_dec(lx@));
        } else {
            if lx@.len() > 0 && (forall|i: int|
                0 <= i < lx@.len() ==> is_dec_digit(#[trigger] lx@[i])) {
                assert(!valid_u64_dec(lx@));
                assert(dec_val(lx@) > u64::MAX);
            }
        }
    }
    r
}

/// Decodes a list of strings, from position `i` on.
fn texts_of_exec(items: &Vec<JsonValue>, i: usize) -> (r: Option<Vec<Vec<u8>>>)
    requires
        i <= items@.len(),
    ensures
        match r {
            Option::Some(ts) => spec_texts_of(view_list(items@).skip(i as int))
                == Option::Some(view_texts(ts@)),
            Option::None => spec_texts_of(view_list(items@).skip(i as int)) is None,
        },
    decreases items@.len() - i,
{
    proof {
        lemma_view_list_index(items@);
    }
    let ghost lv = view_list(items@);
    if i == items.len() {
        let out: Vec<Vec<u8>> = Vec::new();
        proof {
            assert(lv.skip(i as int).len() == 0);
            assert(view_texts(out@) =~= Seq::<Seq<u8>>::empty());
            assert(spec_texts_of(lv.skip(i as int)) == Option::Some(Seq::<Seq<u8>>::empty()));
        }
        return Some(out);
    }
    proof {
        assert(lv.skip(i as int)[0] == lv[i as int]);
        assert(lv.skip(i as int).drop_first() =~= lv.skip(i + 1));
    }
    match &items[i] {
        JsonValue::Str(s) => {
            match texts_of_exec(items, i + 1) {
                Some(mut rest) => {
                    let ghost restv = rest@;
                    rest.insert(0, copy_bytes(s));
                    proof {
                        assert(view_texts(rest@) =~= seq![s@] + view_texts(restv));
                    }
                    Some(rest)
                },
                None => None,
            }
        },
        _ => None,
    }
}

/// Decodes a list of `[address, verbosity]` pairs, from position `i` on.
fn tel_of_exec(items: &Vec<JsonValue>, i: usize) -> (r: Option<Vec<(Vec<u8>, u8)>>)
    requires
        i <= items@.len(),
    ensures
        match r {
            Option::Some(ts) => spec_tel_of(view_list(items@).skip(i as int)) == Option::Some(
                view_tel(ts@),
            ),
            Option::None => spec_tel_of(view_list(items@).skip(i as int)) is None,
        },
    decreases items@.len() - i,
{
    proof {
        lemma_view_list_index(items@);
    }
    let ghost lv = view_list(items@);
    if i == items.len() {
        let out: Vec<(Vec<u8>, u8)> = Vec::new();
        proof {
            assert(lv.skip(i as int).len() == 0);
            assert(view_tel(out@) =~= Seq::<(Seq<u8>, u8)>::empty());
        }
        return Some(out);
    }
    proof {
        assert(lv.skip(i as int)[0] == lv[i as int]);
        assert(lv.skip(i as int).drop_first() =~= lv.skip(i + 1));
    }
    match &items[i] {
        JsonValue::Arr(pair) => {
            proof {
                lemma_view_list_index(pair@);
            }
            if pair.len() != 2 {
                return None;
            }
            match (&pair[0], &pair[1]) {
                (JsonValue::Str(s), JsonValue::Num(lx)) => {
                    match lex_uint_exec(lx) {
                        Some(n) => {
                            if n <= 255 {
                                match tel_of_exec(items, i + 1) {
                                    Some(mut rest) => {
                                        let ghost restv = rest@;
                                        rest.insert(0, (copy_bytes(s), n as u8));
                                        proof {
                                            assert(view_tel(rest@) =~= seq![(s@, n as u8)]
                                                + view_tel(restv));
                                        }
                                        Some(rest)
                                    },
                                    None => None,
                                }
                            } else {
                                None
                            }
                        },
                        None => None,
                    }
                },
                _ => None,
            }
        },
        _ => None,
    }
}

/// Decodes an array of small numbers into bytes, from position `i` on.
fn bytes_arr_exec(items: &Vec<JsonValue>, i: usize) -> (r: Option<Vec<u8>>)
    requires
        i <= items@.len(),
    ensures
        match r {
            Option::Some(bs) => spec_bytes_arr(view_list(items@).skip(i as int)) == Option::Some(
                bs@,
            ),
            Option::None => spec_bytes_arr(view_list(items@).skip(i as int)) is None,
        },
    decreases items@.len() - i,
{
    proof {
        lemma_view_list_index(items@);
    }
    let ghost lv = view_list(items@);
    if i == items.len() {
        let out: Vec<u8> = Vec::new();
        proof {
            assert(lv.skip(i as int).len() == 0);
        }
        return Some(out);
    }
    proof {
        assert(lv.skip(i as int)[0] == lv[i as int]);
        assert(lv.skip(i as int).drop_first() =~= lv.skip(i + 1));
    }
    match &items[i] {
        JsonValue::Num(lx) => {
            match lex_uint_exec(lx) {
                Some(n) => {
                    if n <= 255 {
                        match bytes_arr_exec(items, i + 1) {
                            Some(mut rest) => {
                                rest.insert(0, n as u8);
                                proof {
                                    assert(rest@ =~= seq![n as u8] + rest@.drop_first());
                                }
                                Some(rest)
                            },
                            None => None,
                        }
                    } else {
                        None
                    }
                },
                None => None,
            }
        },
        _ => None,
    }
}

/// Decodes a list of `[number, hash]` pairs, from position `i` on.
fn fb_of_exec(items: &Vec<JsonValue>, i: usize) -> (r: Result<Vec<(u64, FixedHash)>, DecodeError>)
    requires
        i <= items@.len(),
    ensures
        match r {
            Ok(fb) => spec_fb_of(view_list(items@).skip(i as int)) == Ok::<
                Seq<(u64, Seq<u8>)>,
                SpecErr,
            >(view_fb(fb@)),
            Err(e) => spec_fb_of(view_list(items@).skip(i as int)) == Err::<
                Seq<(u64, Seq<u8>)>,
                SpecErr,
            >(view_err(e)),
        },
    decreases items@.len() - i,
{
    proof {
        lemma_view_list_index(items@);
    }
    let ghost lv = view_list(items@);
    if i == items.len() {
        let out: Vec<(u64, FixedHash)> = Vec::new();
        proof {
            assert(lv.skip(i as int).len() == 0);
            assert(view_fb(out@) =~= Seq::<(u64, Seq<u8>)>::empty());
        }
        return Ok(out);
    }
    proof {
        assert(lv.skip(i as int)[0] == lv[i as int]);
        assert(lv.skip(i as int).drop_first() =~= lv.skip(i + 1));
    }
    match &items[i] {
        JsonValue::Arr(pair) => {
            proof {
                lemma_view_list_index(pair@);
            }
            if pair.len() != 2 {
                return Err(DecodeError::Format { field: key_fork_blocks_vec() });
            }
            match (&pair[0], &pair[1]) {
                (JsonValue::Num(lx), JsonValue::Str(s)) => {
                    match lex_uint_exec(lx) {
                        Some(n) => {
                            match FixedHash::decode(s.as_slice()) {
                                Ok(h) => {
                                    match fb_of_exec(items, i + 1) {
                                        Ok(mut rest) => {
                                            let ghost restv = rest@;
                                            rest.insert(0, (n, h));
                                            proof {
                                                assert(view_fb(rest@) =~= seq![
                                                    (n, rest@[0].1.bytes@),
                                                ] + view_fb(restv));
                                            }
                                            Ok(rest)
                                        },
                                        Err(e) => Err(e),
                                    }
                                },
                                Err(CodecError::Format) => Err(
                                    DecodeError::Format { field: key_fork_blocks_vec() },
                                ),
                                Err(CodecError::Length { actual, expected }) => Err(
                                    DecodeError::Length {
                                        field: key_fork_blocks_vec(),
                                        actual,
                                        expected,
                                    },
                                ),
                            }
                        },
                        None => Err(DecodeError::Format { field: key_fork_blocks_vec() }),
                    }
                },
                _ => Err(DecodeError::Format { field: key_fork_blocks_vec() }),
            }
        },
        _ => Err(DecodeError::Format { field: key_fork_blocks_vec() }),
    }
}

/// Builds the bad-block set, from position `i` on.
fn bb_go_exec(items: &Vec<JsonValue>, i: usize, acc: Vec<FixedHash>) -> (r: Result<
    Vec<FixedHash>,
    DecodeError,
>)
    requires
        i <= items@.len(),
    ensures
        match r {
            Ok(bb) => spec_bb_go(view_list(items@).skip(i as int), view_hashes(acc@)) == Ok::<
                Seq<Seq<u8>>,
                SpecErr,
            >(view_hashes(bb@)),
            Err(e) => spec_bb_go(view_list(items@).skip(i as int), view_hashes(acc@)) == Err::<
                Seq<Seq<u8>>,
                SpecErr,
            >(view_err(e)),
        },
    decreases items@.len() - i,
{
    proof {
        lemma_view_list_index(items@);
    }
    let ghost lv = view_list(items@);
    if i == items.len() {
        proof {
            assert(lv.skip(i as int).len() == 0);
        }
        return Ok(acc);
    }
    proof {
        assert(lv.skip(i as int)[0] == lv[i as int]);
        assert(lv.skip(i as int).drop_first() =~= lv.skip(i + 1));
    }
    match &items[i] {
        JsonValue::Str(s) => {
            match FixedHash::decode(s.as_slice()) {
                Ok(h) => {
                    let next = ins_hash_exec(acc, h);
                    bb_go_exec(items, i + 1, next)
                },
                Err(CodecError::Format) => Err(
                    DecodeError::Format { field: key_bad_blocks_vec() },
                ),
                Err(CodecError::Length { actual, expected }) => Err(
                    DecodeError::Length { field: key_bad_blocks_vec(), actual, expected },
                ),
            }
        },
        _ => Err(DecodeError::Format { field: key_bad_blocks_vec() }),
    }
}

/// Builds the code-substitutes map, from member `i` on.
fn cs_go_exec(inner: &Vec<(Vec<u8>, JsonValue)>, i: usize, acc: Vec<(u64, HexBytes)>) -> (r:
    Option<Vec<(u64, HexBytes)>>)
    requires
        i <= inner@.len(),
    ensures
        match r {
            Option::Some(cs) => spec_cs_go(view_members(inner@).skip(i as int), view_cs(acc@))
                == Option::Some(view_cs(cs@)),
            Option::None => spec_cs_go(view_members(inner@).skip(i as int), view_cs(acc@))
                is None,
        },
    decreases inner@.len() - i,
{
    proof {
        lemma_view_members_index(inner@);
    }
    let ghost mv = view_members(inner@);
    if i == inner.len() {
        proof {
            assert(mv.skip(i as int).len() == 0);
        }
        return Some(acc);
    }
    proof {
        assert(mv.skip(i as int)[0] == mv[i as int]);
        assert(mv.skip(i as int).drop_first() =~= mv.skip(i + 1));
    }
    match FlexibleNumber::decode(inner[i].0.as_slice()) {
        Ok(fnum) => {
            match &inner[i].1 {
                JsonValue::Str(s) => {
                    match HexBytes::decode(s.as_slice()) {
                        Ok(hb) => {
                            let next = ins_u64_exec(acc, fnum.value, hb);
                            cs_go_exec(inner, i + 1, next)
                        },
                        Err(_) => None,
                    }
                },
                _ => None,
            }
        },
        Err(_) => None,
    }
}

/// Builds the raw top storage, from member `i` on.
fn top_go_exec(inner: &Vec<(Vec<u8>, JsonValue)>, i: usize, acc: Vec<(HexBytes, HexBytes)>) -> (r:
    Option<Vec<(HexBytes, HexBytes)>>)
    requires
        i <= inner@.len(),
    ensures
        match r {
            Option::Some(m) => spec_top_go(view_members(inner@).skip(i as int), view_top(acc@))
                == Option::Some(view_top(m@)),
            Option::None => spec_top_go(view_members(inner@).skip(i as int), view_top(acc@))
                is None,
        },
    decreases inner@.len() - i,
{
    proof {
        lemma_view_members_index(inner@);
    }
    let ghost mv = view_members(inner@);
    if i == inner.len() {
        proof {
            assert(mv.skip(i as int).len() == 0);
        }
        return Some(acc);
    }
    proof {
        assert(mv.skip(i as int)[0] == mv[i as int]);
        assert(mv.skip(i as int).drop_first() =~= mv.skip(i + 1));
    }
    match HexBytes::decode(inner[i].0.as_slice()) {
        Ok(kb) => {
            match &inner[i].1 {
                JsonValue::Str(s) => {
                    match HexBytes::decode(s.as_slice()) {
                        Ok(vb) => {
                            let next = ins_bytes_exec(acc, kb, vb);
                            top_go_exec(inner, i + 1, next)
                        },
                        Err(_) => None,
                    }
                },
                _ => None,
            }
        },
        Err(_) => None,
    }
}

} // verus!

// The nested decoders of the genesis field, and the per-field wrappers.

verus! {

/// Scans a child object's member names, executably.
#[verifier::loop_isolation(false)]
fn child_scan_exec(ms: &Vec<(Vec<u8>, JsonValue)>) -> (r: Option<DecodeError>)
    ensures
        match r {
            Option::Some(e) => child_scan(view_members(ms@), 0) == Option::Some(view_err(e)),
            Option::None => child_scan(view_members(ms@), 0) == Option::None::<SpecErr>,
        },
{
    proof {
        lemma_view_members_index(ms@);
    }
    let ghost msv = view_members(ms@);
    let ka = key_child_info_vec();
    let kb = key_child_type_vec();
    let mut j: usize = 0;
    while j < ms.len()
        invariant
            0 <= j <= ms@.len(),
            ka@ == key_child_info(),
            kb@ == key_child_type(),
            child_scan(msv, 0) == child_scan(msv, j as int),
        decreases ms@.len() - j,
    {
        if !(bytes_eq(ms[j].0.as_slice(), ka.as_slice()) || bytes_eq(
            ms[j].0.as_slice(),
            kb.as_slice(),
        )) {
            let field = copy_bytes(&ms[j].0);
            return Some(DecodeError::UnknownField { field });
        }
        let mut i: usize = 0;
        while i < j
            invariant
                0 <= i <= j < ms@.len(),
                forall|t: int| 0 <= t < i ==> (#[trigger] msv[t].0) != msv[j as int].0,
            decreases j - i,
        {
            if bytes_eq(ms[i].0.as_slice(), ms[j].0.as_slice()) {
                let field = copy_bytes(&ms[j].0);
                proof {
                    assert(msv[i as int].0 == msv[j as int].0);
                    assert(exists|t: int| 0 <= t < j && (#[trigger] msv[t].0) == msv[j as int].0);
                }
                return Some(DecodeError::Format { field });
            }
            i = i + 1;
        }
        proof {
            assert(!(exists|t: int| 0 <= t < j && (#[trigger] msv[t].0) == msv[j as int].0));
        }
        j = j + 1;
    }
    None
}

/// Scans the raw-genesis member names, executably.
#[verifier::loop_isolation(false)]
fn raw_scan_exec(ms: &Vec<(Vec<u8>, JsonValue)>) -> (r: Option<DecodeError>)
    ensures
        match r {
            Option::Some(e) => raw_scan(view_members(ms@), 0) == Option::Some(view_err(e)),
            Option::None => raw_scan(view_members(ms@), 0) == Option::None::<SpecErr>,
        },
{
    proof {
        lemma_view_members_index(ms@);
    }
    let ghost msv = view_members(ms@);
    let ka = key_top_vec();
    let kb = key_children_default_vec();
    let mut j: usize = 0;
    while j < ms.len()
        invariant
            0 <= j <= ms@.len(),
            ka@ == key_top(),
            kb@ == key_children_default(),
            raw_scan(msv, 0) == raw_scan(msv, j as int),
        decreases ms@.len() - j,
    {
        if !(bytes_eq(ms[j].0.as_slice(), ka.as_slice()) || bytes_eq(
            ms[j].0.as_slice(),
            kb.as_slice(),
        )) {
            let field = copy_bytes(&ms[j].0);
            return Some(DecodeError::UnknownField { field });
        }
        let mut i: usize = 0;
        while i < j
            invariant
                0 <= i <= j < ms@.len(),
                forall|t: int| 0 <= t < i ==> (#[trigger] msv[t].0) != msv[j as int].0,
            decreases j - i,
        {
            if bytes_eq(ms[i].0.as_slice(), ms[j].0.as_slice()) {
                let field = copy_bytes(&ms[j].0);
                proof {
                    assert(msv[i as int].0 == msv[j as int].0);
                    assert(exists|t: int| 0 <= t < j && (#[trigger] msv[t].0) == msv[j as int].0);
                }
                return Some(DecodeError::Format { field });
            }
            i = i + 1;
        }
        proof {
            assert(!(exists|t: int| 0 <= t < j && (#[trigger] msv[t].0) == msv[j as int].0));
        }
        j = j + 1;
    }
    None
}

/// Decodes one child-storage object.
fn child_of_exec(v: &JsonValue) -> (r: Result<ChildStorage, DecodeError>)
    ensures
        match r {
            Ok(c) => spec_child_of(view_json(*v)) == Ok::<SpecChild, SpecErr>(
                SpecChild { child_info: c.child_info@, child_type: c.child_type },
            ),
            Err(e) => spec_child_of(view_json(*v)) == Err::<SpecChild, SpecErr>(view_err(e)),
        },
{
    match v {
        JsonValue::Obj(inner) => {
            match child_scan_exec(inner) {
                Some(e) => Err(e),
                None => {
                    let ki = key_child_info_vec();
                    let kt = key_child_type_vec();
                    let info_m = find_member(inner, ki.as_slice());
                    if info_m.is_none() {
                        return Err(DecodeError::MissingField { field: ki });
                    }
                    let type_m = find_member(inner, kt.as_slice());
                    if type_m.is_none() {
                        return Err(DecodeError::MissingField { field: kt });
                    }
                    let info = match info_m.unwrap() {
                        JsonValue::Arr(items) => {
                            proof {
                                assert(view_list(items@).skip(0) =~= view_list(items@));
                            }
                            bytes_arr_exec(items, 0)
                        },
                        _ => None,
                    };
                    match info {
                        Some(ib) => {
                            match type_m.unwrap() {
                                JsonValue::Num(lx) => {
                                    match lex_uint_exec(lx) {
                                        Some(n) => {
                                            if n <= u32::MAX as u64 {
                                                Ok(
                                                    ChildStorage {
                                                        child_info: ib,
                                                        child_type: n as u32,
                                                    },
                                                )
                                            } else {
                                                Err(DecodeError::Format { field: kt })
                                            }
                                        },
                                        None => Err(DecodeError::Format { field: kt }),
                                    }
                                },
                                _ => Err(DecodeError::Format { field: kt }),
                            }
                        },
                        None => Err(DecodeError::Format { field: ki }),
                    }
                },
            }
        },
        _ => Err(DecodeError::Format { field: key_children_default_vec() }),
    }
}

/// Builds the children map, from member `i` on.
fn children_go_exec(
    inner: &Vec<(Vec<u8>, JsonValue)>,
    i: usize,
    acc: Vec<(HexBytes, ChildStorage)>,
) -> (r: Result<Vec<(HexBytes, ChildStorage)>, DecodeError>)
    requires
        i <= inner@.len(),
    ensures
        match r {
            Ok(m) => spec_children_go(view_members(inner@).skip(i as int), view_children(acc@))
                == Ok::<Seq<(Seq<u8>, SpecChild)>, SpecErr>(view_children(m@)),
            Err(e) => spec_children_go(view_members(inner@).skip(i as int), view_children(acc@))
                == Err::<Seq<(Seq<u8>, SpecChild)>, SpecErr>(view_err(e)),
        },
    decreases inner@.len() - i,
{
    proof {
        lemma_view_members_index(inner@);
    }
    let ghost mv = view_members(inner@);
    if i == inner.len() {
        proof {
            assert(mv.skip(i as int).len() == 0);
        }
        return Ok(acc);
    }
    proof {
        assert(mv.skip(i as int)[0] == mv[i as int]);
        assert(mv.skip(i as int).drop_first() =~= mv.skip(i + 1));
    }
    match HexBytes::decode(inner[i].0.as_slice()) {
        Ok(kb) => {
            match child_of_exec(&inner[i].1) {
                Ok(c) => {
                    let next = ins_children_exec(acc, kb, c);
                    children_go_exec(inner, i + 1, next)
                },
                Err(e) => Err(e),
            }
        },
        Err(_) => Err(DecodeError::Format { field: key_children_default_vec() }),
    }
}

/// Decodes the `raw` genesis shape.
fn raw_genesis_exec(v: &JsonValue) -> (r: Result<GenesisState, DecodeError>)
    ensures
        match r {
            Ok(g) => spec_raw_genesis(view_json(*v)) == Ok::<SpecGenesis, SpecErr>(
                view_genesis(g),
            ),
            Err(e) => spec_raw_genesis(view_json(*v)) == Err::<SpecGenesis, SpecErr>(view_err(e)),
        },
{
    match v {
        JsonValue::Obj(inner) => {
            match raw_scan_exec(inner) {
                Some(e) => Err(e),
                None => {
                    let kt = key_top_vec();
                    let kc = key_children_default_vec();
                    let top_m = find_member(inner, kt.as_slice());
                    if top_m.is_none() {
                        return Err(DecodeError::MissingField { field: kt });
                    }
                    let cd_m = find_member(inner, kc.as_slice());
                    if cd_m.is_none() {
                        return Err(DecodeError::MissingField { field: kc });
                    }
                    let top = match top_m.unwrap() {
                        JsonValue::Obj(entries) => {
                            proof {
                                assert(view_members(entries@).skip(0) =~= view_members(entries@));
                                assert(view_top(Seq::<(HexBytes, HexBytes)>::empty()) =~= Seq::<
                                    (Seq<u8>, Seq<u8>),
                                >::empty());
                            }
                            top_go_exec(entries, 0, Vec::new())
                        },
                        _ => None,
                    };
                    match top {
                        Some(tm) => {
                            match cd_m.unwrap() {
                                JsonValue::Obj(entries) => {
                                    proof {
                                        assert(view_members(entries@).skip(0) =~= view_members(
                                            entries@,
                                        ));
                                        assert(view_children(
                                            Seq::<(HexBytes, ChildStorage)>::empty(),
                                        ) =~= Seq::<(Seq<u8>, SpecChild)>::empty());
                                    }
                                    match children_go_exec(entries, 0, Vec::new()) {
                                        Ok(cd) => Ok(
                                            GenesisState::Raw { top: tm, children_default: cd },
                                        ),
                                        Err(e) => Err(e),
                                    }
                                },
                                _ => Err(DecodeError::Format { field: kc }),
                            }
                        },
                        None => Err(DecodeError::Format { field: kt }),
                    }
                },
            }
        },
        _ => Err(DecodeError::Format { field: key_raw_vec() }),
    }
}

/// Decodes the genesis field.
fn get_genesis(ms: &Vec<(Vec<u8>, JsonValue)>) -> (r: Result<GenesisState, DecodeError>)
    ensures
        match r {
            Ok(g) => spec_genesis(view_members(ms@)) == Ok::<SpecGenesis, SpecErr>(
                view_genesis(g),
            ),
            Err(e) => spec_genesis(view_members(ms@)) == Err::<SpecGenesis, SpecErr>(view_err(e)),
        },
{
    let kg = key_genesis_vec();
    match find_member(ms, kg.as_slice()) {
        None => Err(DecodeError::MissingField { field: kg }),
        Some(v) => match v {
            JsonValue::Obj(inner) => {
                proof {
                    lemma_view_members_index(inner@);
                }
                if inner.len() != 1 {
                    return Err(DecodeError::AmbiguousVariant { field: kg });
                }
                let kr = key_raw_vec();
                let ks = key_state_root_hash_vec();
                if bytes_eq(inner[0].0.as_slice(), kr.as_slice()) {
                    match raw_genesis_exec(&inner[0].1) {
                        Ok(g) => Ok(g),
                        Err(e) => Err(e),
                    }
                } else if bytes_eq(inner[0].0.as_slice(), ks.as_slice()) {
                    match &inner[0].1 {
                        JsonValue::Str(s) => {
                            match FixedHash::decode(s.as_slice()) {
                                Ok(h) => Ok(GenesisState::StateRootHash(h)),
                                Err(CodecError::Format) => Err(
                                    DecodeError::Format { field: ks },
                                ),
                                Err(CodecError::Length { actual, expected }) => Err(
                                    DecodeError::Length { field: ks, actual, expected },
                                ),
                            }
                        },
                        _ => Err(DecodeError::Format { field: ks }),
                    }
                } else {
                    Err(DecodeError::AmbiguousVariant { field: kg })
                }
            },
            _ => Err(DecodeError::AmbiguousVariant { field: kg }),
        },
    }
}

/// Decodes the flattened parachain fields.
fn get_parachain(ms: &Vec<(Vec<u8>, JsonValue)>) -> (r: Result<
    Option<ParachainExtension>,
    DecodeError,
>)
    ensures
        match r {
            Ok(p) => spec_parachain(view_members(ms@)) == Ok::<Option<(Seq<u8>, u32)>, SpecErr>(
                match p {
                    Option::None => Option::None,
                    Option::Some(pe) => Option::Some((pe.relay_chain@, pe.para_id)),
                },
            ),
            Err(e) => spec_parachain(view_members(ms@)) == Err::<
                Option<(Seq<u8>, u32)>,
                SpecErr,
            >(view_err(e)),
        },
{
    let kr = key_relay_chain_vec();
    let kp = key_para_id_vec();
    let relay_m = find_member(ms, kr.as_slice());
    let para_m = find_member(ms, kp.as_slice());
    if relay_m.is_none() && para_m.is_none() {
        return Ok(None);
    }
    if para_m.is_none() {
        return Err(DecodeError::MissingField { field: kp });
    }
    if relay_m.is_none() {
        return Err(DecodeError::MissingField { field: kr });
    }
    match relay_m.unwrap() {
        JsonValue::Str(s) => {
            match para_m.unwrap() {
                JsonValue::Num(lx) => {
                    match lex_uint_exec(lx) {
                        Some(n) => {
                            if n <= u32::MAX as u64 {
                                Ok(
                                    Some(
                                        ParachainExtension {
                                            relay_chain: copy_bytes(s),
                                            para_id: n as u32,
                                        },
                                    ),
                                )
                            } else {
                                Err(DecodeError::Format { field: kp })
                            }
                        },
                        None => Err(DecodeError::Format { field: kp }),
                    }
                },
                _ => Err(DecodeError::Format { field: kp }),
            }
        },
        _ => Err(DecodeError::Format { field: kr }),
    }
}

} // verus!

// The remaining field wrappers and the whole-document decoder.

verus! {

/// Decodes the required boot-node list.
fn get_boot_nodes(ms: &Vec<(Vec<u8>, JsonValue)>) -> (r: Result<Vec<Vec<u8>>, DecodeError>)
    ensures
        match r {
            Ok(bn) => spec_boot_nodes(view_members(ms@)) == Ok::<Seq<Seq<u8>>, SpecErr>(
                view_texts(bn@),
            ),
            Err(e) => spec_boot_nodes(view_members(ms@)) == Err::<Seq<Seq<u8>>, SpecErr>(
                view_err(e),
            ),
        },
{
    let kb = key_boot_nodes_vec();
    match find_member(ms, kb.as_slice()) {
        None => Err(DecodeError::MissingField { field: kb }),
        Some(v) => match v {
            JsonValue::Arr(items) => {
                proof {
                    assert(view_list(items@).skip(0) =~= view_list(items@));
                }
                match texts_of_exec(items, 0) {
                    Some(ts) => Ok(ts),
                    None => Err(DecodeError::Format { field: kb }),
                }
            },
            _ => Err(DecodeError::Format { field: kb }),
        },
    }
}

/// Decodes the optional telemetry-endpoints list.
fn get_telemetry(ms: &Vec<(Vec<u8>, JsonValue)>) -> (r: Result<
    Option<Vec<(Vec<u8>, u8)>>,
    DecodeError,
>)
    ensures
        match r {
            Ok(t) => spec_telemetry(view_members(ms@)) == Ok::<
                Option<Seq<(Seq<u8>, u8)>>,
                SpecErr,
            >(
                match t {
                    Option::None => Option::None,
                    Option::Some(v) => Option::Some(view_tel(v@)),
                },
            ),
            Err(e) => spec_telemetry(view_members(ms@)) == Err::<
                Option<Seq<(Seq<u8>, u8)>>,
                SpecErr,
            >(view_err(e)),
        },
{
    let kt = key_telemetry_endpoints_vec();
    match find_member(ms, kt.as_slice()) {
        None => Ok(None),
        Some(v) => match v {
            JsonValue::Null => Ok(None),
            JsonValue::Arr(items) => {
                proof {
                    assert(view_list(items@).skip(0) =~= view_list(items@));
                }
                match tel_of_exec(items, 0) {
                    Some(t) => Ok(Some(t)),
                    None => Err(DecodeError::Format { field: kt }),
                }
            },
            _ => Err(DecodeError::Format { field: kt }),
        },
    }
}

/// Decodes the optional code-substitutes map.
fn get_code_substitutes(ms: &Vec<(Vec<u8>, JsonValue)>) -> (r: Result<
    Vec<(u64, HexBytes)>,
    DecodeError,
>)
    ensures
        match r {
            Ok(cs) => spec_code_substitutes(view_members(ms@)) == Ok::<
                Seq<(u64, Seq<u8>)>,
                SpecErr,
            >(view_cs(cs@)),
            Err(e) => spec_code_substitutes(view_members(ms@)) == Err::<
                Seq<(u64, Seq<u8>)>,
                SpecErr,
            >(view_err(e)),
        },
{
    let kc = key_code_substitutes_vec();
    match find_member(ms, kc.as_slice()) {
        None => {
            let out: Vec<(u64, HexBytes)> = Vec::new();
            proof {
                assert(view_cs(out@) =~= Seq::<(u64, Seq<u8>)>::empty());
            }
            Ok(out)
        },
        Some(v) => match v {
            JsonValue::Obj(inner) => {
                proof {
                    assert(view_members(inner@).skip(0) =~= view_members(inner@));
                    assert(view_cs(Seq::<(u64, HexBytes)>::empty()) =~= Seq::<
                        (u64, Seq<u8>),
                    >::empty());
                }
                match cs_go_exec(inner, 0, Vec::new()) {
                    Some(cs) => Ok(cs),
                    None => Err(DecodeError::Format { field: kc }),
                }
            },
            _ => Err(DecodeError::Format { field: kc }),
        },
    }
}

/// Decodes the optional fork-blocks list.
fn get_fork_blocks(ms: &Vec<(Vec<u8>, JsonValue)>) -> (r: Result<
    Option<Vec<(u64, FixedHash)>>,
    DecodeError,
>)
    ensures
        match r {
            Ok(fb) => spec_fork_blocks(view_members(ms@)) == Ok::<
                Option<Seq<(u64, Seq<u8>)>>,
                SpecErr,
            >(
                match fb {
                    Option::None => Option::None,
                    Option::Some(v) => Option::Some(view_fb(v@)),
                },
            ),
            Err(e) => spec_fork_blocks(view_members(ms@)) == Err::<
                Option<Seq<(u64, Seq<u8>)>>,
                SpecErr,
            >(view_err(e)),
        },
{
    let kf = key_fork_blocks_vec();
    match find_member(ms, kf.as_slice()) {
        None => Ok(None),
        Some(v) => match v {
            JsonValue::Null => Ok(None),
            JsonValue::Arr(items) => {
                proof {
                    assert(view_list(items@).skip(0) =~= view_list(items@));
                }
                match fb_of_exec(items, 0) {
                    Ok(fb) => Ok(Some(fb)),
                    Err(e) => Err(e),
                }
            },
            _ => Err(DecodeError::Format { field: kf }),
        },
    }
}

/// Decodes the optional bad-blocks set.
fn get_bad_blocks(ms: &Vec<(Vec<u8>, JsonValue)>) -> (r: Result<
    Option<Vec<FixedHash>>,
    DecodeError,
>)
    ensures
        match r {
            Ok(bb) => spec_bad_blocks(view_members(ms@)) == Ok::<Option<Seq<Seq<u8>>>, SpecErr>(
                match bb {
                    Option::None => Option::None,
                    Option::Some(v) => Option::Some(view_hashes(v@)),
                },
            ),
            Err(e) => spec_bad_blocks(view_members(ms@)) == Err::<
                Option<Seq<Seq<u8>>>,
                SpecErr,
            >(view_err(e)),
        },
{
    let kb = key_bad_blocks_vec();
    match find_member(ms, kb.as_slice()) {
        None => Ok(None),
        Some(v) => match v {
            JsonValue::Null => Ok(None),
            JsonValue::Arr(items) => {
                proof {
                    assert(view_list(items@).skip(0) =~= view_list(items@));
                    assert(view_hashes(Seq::<FixedHash>::empty()) =~= Seq::<Seq<u8>>::empty());
                }
                match bb_go_exec(items, 0, Vec::new()) {
                    Ok(bb) => Ok(Some(bb)),
                    Err(e) => Err(e),
                }
            },
            _ => Err(DecodeError::Format { field: kb }),
        },
    }
}

impl ChainSpecDocument {
    /// Decodes a document from its JSON value, exactly as the document
    /// grammar says: whitelisted members only, required fields present,
    /// every leaf in its expected textual form.
    pub fn from_json(v: &JsonValue) -> (r: Result<ChainSpecDocument, DecodeError>)
        ensures
            match r {
                Ok(d) => spec_decode_doc(view_json(*v)) == Ok::<SpecDoc, SpecErr>(view_doc(d)),
                Err(e) => spec_decode_doc(view_json(*v)) == Err::<SpecDoc, SpecErr>(view_err(e)),
            },
    {
        let ms = match v {
            JsonValue::Obj(ms) => ms,
            _ => {
                let empty: Vec<u8> = Vec::new();
                proof {
                    assert(empty@ =~= Seq::<u8>::empty());
                }
                return Err(DecodeError::Format { field: empty });
            },
        };
        if let Some(e) = scan_keys(ms) {
            return Err(e);
        }
        let kn = key_name_vec();
        let ki = key_id_vec();
        let name = match get_req_text(ms, kn.as_slice()) {
            Ok(s) => s,
            Err(e) => return Err(e),
        };
        let id = match get_req_text(ms, ki.as_slice()) {
            Ok(s) => s,
            Err(e) => return Err(e),
        };
        let chain_type = match get_chain_type(ms) {
            Ok(ct) => ct,
            Err(e) => return Err(e),
        };
        let code_substitutes = match get_code_substitutes(ms) {
            Ok(cs) => cs,
            Err(e) => return Err(e),
        };
        let boot_nodes = match get_boot_nodes(ms) {
            Ok(bn) => bn,
            Err(e) => return Err(e),
        };
        let telemetry_endpoints = match get_telemetry(ms) {
            Ok(t) => t,
            Err(e) => return Err(e),
        };
        let kp = key_protocol_id_vec();
        let protocol_id = match get_opt_text(ms, kp.as_slice()) {
            Ok(p) => p,
            Err(e) => return Err(e),
        };
        let kf = key_fork_id_vec();
        let fork_id = match get_opt_text(ms, kf.as_slice()) {
            Ok(f) => f,
            Err(e) => return Err(e),
        };
        let fork_blocks = match get_fork_blocks(ms) {
            Ok(fb) => fb,
            Err(e) => return Err(e),
        };
        let bad_blocks = match get_bad_blocks(ms) {
            Ok(bb) => bb,
            Err(e) => return Err(e),
        };
        match check_consensus(ms) {
            Ok(_) => (),
            Err(e) => return Err(e),
        };
        let genesis = match get_genesis(ms) {
            Ok(g) => g,
            Err(e) => return Err(e),
        };
        let parachain = match get_parachain(ms) {
            Ok(p) => p,
            Err(e) => return Err(e),
        };
        let kprop = key_properties_vec();
        let properties = get_passthrough(ms, kprop.as_slice());
        let kl = key_light_sync_state_vec();
        let light_sync_state = get_passthrough(ms, kl.as_slice());
        let d = ChainSpecDocument {
            name,
            id,
            chain_type,
            code_substitutes,
            boot_nodes,
            telemetry_endpoints,
            protocol_id,
            fork_id,
            properties,
            fork_blocks,
            bad_blocks,
            genesis,
            light_sync_state,
            parachain,
        };
        proof {
            assert(spec_decode_doc(view_json(*v)) is Ok);
            assert(spec_decode_doc(view_json(*v))->Ok_0 =~= view_doc(d));
        }
        Ok(d)
    }
}

} // verus!

// The canonical encoding of a document back to a JSON value: the member
// list is fixed, `forkId` and the parachain fields appear only when present,
// and the vestigial consensus-engine member is never emitted.

verus! {

/// Chain type, encoded: a bare name, or a single-member object for custom.
pub open spec fn enc_ct(ct: SpecChainType) -> SpecJson {
    match ct {
        SpecChainType::Development => SpecJson::Str(key_development()),
        SpecChainType::Local => SpecJson::Str(key_local()),
        SpecChainType::Live => SpecJson::Str(key_live()),
        SpecChainType::Custom(s) => SpecJson::Obj(seq![(key_custom(), SpecJson::Str(s))]),
    }
}

/// An optional text, encoded: null when absent.
pub open spec fn enc_opt_text(o: Option<Seq<u8>>) -> SpecJson {
    match o {
        Option::None => SpecJson::Null,
        Option::Some(s) => SpecJson::Str(s),
    }
}

/// The code-substitutes members: decimal keys, hex text values.
pub open spec fn enc_cs(m: Seq<(u64, Seq<u8>)>) -> Seq<(Seq<u8>, SpecJson)> {
    Seq::new(
        m.len(),
        |i: int| (dec_repr(m[i].0 as int), SpecJson::Str(HexBytes::spec_encode(m[i].1))),
    )
}

/// The boot-node items.
pub open spec fn enc_texts(ts: Seq<Seq<u8>>) -> Seq<SpecJson> {
    Seq::new(ts.len(), |i: int| SpecJson::Str(ts[i]))
}

/// The telemetry items: `[address, verbosity]` pairs.
pub open spec fn enc_tel(t: Seq<(Seq<u8>, u8)>) -> Seq<SpecJson> {
    Seq::new(
        t.len(),
        |i: int|
            SpecJson::Arr(
                seq![SpecJson::Str(t[i].0), SpecJson::Num(dec_repr(t[i].1 as int))],
            ),
    )
}

/// The fork-block items: `[number, hash]` pairs.
pub open spec fn enc_fb(fb: Seq<(u64, Seq<u8>)>) -> Seq<SpecJson> {
    Seq::new(
        fb.len(),
        |i: int|
            SpecJson::Arr(
                seq![
                    SpecJson::Num(dec_repr(fb[i].0 as int)),
                    SpecJson::Str(FixedHash::spec_encode(fb[i].1)),
                ],
            ),
    )
}

/// The bad-block items: hash texts.
pub open spec fn enc_hashes(bb: Seq<Seq<u8>>) -> Seq<SpecJson> {
    Seq::new(bb.len(), |i: int| SpecJson::Str(FixedHash::spec_encode(bb[i])))
}

/// The raw top-storage members: hex keys and hex text values, in stored
/// (ascending) order.
pub open spec fn enc_top(top: Seq<(Seq<u8>, Seq<u8>)>) -> Seq<(Seq<u8>, SpecJson)> {
    Seq::new(
        top.len(),
        |i: int| (HexBytes::spec_encode(top[i].0), SpecJson::Str(HexBytes::spec_encode(top[i].1))),
    )
}

/// The bytes of a child-info value, as numbers.
pub open spec fn enc_bytes(bs: Seq<u8>) -> Seq<SpecJson> {
    Seq::new(bs.len(), |i: int| SpecJson::Num(dec_repr(bs[i] as int)))
}

/// One child-storage object, encoded.
pub open spec fn enc_child(c: SpecChild) -> SpecJson {
    SpecJson::Obj(
        seq![
            (key_child_info(), SpecJson::Arr(enc_bytes(c.child_info))),
            (key_child_type(), SpecJson::Num(dec_repr(c.child_type as int))),
        ],
    )
}

/// The children-storage members, in stored (ascending) order.
pub open spec fn enc_children(cd: Seq<(Seq<u8>, SpecChild)>) -> Seq<(Seq<u8>, SpecJson)> {
    Seq::new(cd.len(), |i: int| (HexBytes::spec_encode(cd[i].0), enc_child(cd[i].1)))
}

/// The genesis member: one tag, `raw` or `stateRootHash`.
pub open spec fn enc_genesis(g: SpecGenesis) -> SpecJson {
    match g {
        SpecGenesis::Raw { top, children_default } => SpecJson::Obj(
            seq![
                (
                    key_raw(),
                    SpecJson::Obj(
                        seq![
                            (key_top(), SpecJson::Obj(enc_top(top))),
                            (key_children_default(), SpecJson::Obj(enc_children(children_default))),
                        ],
                    ),
                ),
            ],
        ),
        SpecGenesis::StateRootHash(h) => SpecJson::Obj(
            seq![(key_state_root_hash(), SpecJson::Str(FixedHash::spec_encode(h)))],
        ),
    }
}

/// An optional passthrough value, encoded: null when absent.
pub open spec fn enc_opt_json(o: Option<SpecJson>) -> SpecJson {
    match o {
        Option::None => SpecJson::Null,
        Option::Some(v) => v,
    }
}

/// The member list of an encoded document, in canonical order. The `forkId`
/// member appears only when the field is present; the parachain members
/// only when that extension is present.
pub open spec fn spec_doc_members(sd: SpecDoc) -> Seq<(Seq<u8>, SpecJson)> {
    seq![
        (key_name(), SpecJson::Str(sd.name)),
        (key_id(), SpecJson::Str(sd.id)),
        (key_chain_type(), enc_ct(sd.chain_type)),
        (key_code_substitutes(), SpecJson::Obj(enc_cs(sd.code_substitutes))),
        (key_boot_nodes(), SpecJson::Arr(enc_texts(sd.boot_nodes))),
        (
            key_telemetry_endpoints(),
            match sd.telemetry_endpoints {
                Option::None => SpecJson::Null,
                Option::Some(t) => SpecJson::Arr(enc_tel(t)),
            },
        ),
        (key_protocol_id(), enc_opt_text(sd.protocol_id)),
    ] + (match sd.fork_id {
        Option::None => Seq::<(Seq<u8>, SpecJson)>::empty(),
        Option::Some(s) => seq![(key_fork_id(), SpecJson::Str(s))],
    }) + seq![
        (key_properties(), enc_opt_json(sd.properties)),
        (
            key_fork_blocks(),
            match sd.fork_blocks {
                Option::None => SpecJson::Null,
                Option::Some(fb) => SpecJson::Arr(enc_fb(fb)),
            },
        ),
        (
            key_bad_blocks(),
            match sd.bad_blocks {
                Option::None => SpecJson::Null,
                Option::Some(bb) => SpecJson::Arr(enc_hashes(bb)),
            },
        ),
        (key_genesis(), enc_genesis(sd.genesis)),
        (key_light_sync_state(), enc_opt_json(sd.light_sync_state)),
    ] + (match sd.parachain {
        Option::None => Seq::<(Seq<u8>, SpecJson)>::empty(),
        Option::Some(p) => seq![
            (key_relay_chain(), SpecJson::Str(p.0)),
            (key_para_id(), SpecJson::Num(dec_repr(p.1 as int))),
        ],
    })
}

/// The canonical JSON value of a document.
pub open spec fn spec_to_json(sd: SpecDoc) -> SpecJson {
    SpecJson::Obj(spec_doc_members(sd))
}

} // verus!

// The executable encoder.

verus! {

/// Builds the boot-node items.
#[verifier::loop_isolation(false)]
fn build_texts(ts: &Vec<Vec<u8>>) -> (r: Vec<JsonValue>)
    ensures
        view_list(r@) == enc_texts(view_texts(ts@)),
{
    let mut out: Vec<JsonValue> = Vec::new();
    let mut i: usize = 0;
    while i < ts.len()
        invariant
            0 <= i <= ts@.len(),
            out@.len() == i,
            forall|j: int| 0 <= j < i ==> view_json(#[trigger] out@[j]) == SpecJson::Str(ts@[j]@),
        decreases ts@.len() - i,
    {
        out.push(JsonValue::Str(copy_bytes(&ts[i])));
        proof {
            assert(view_json(out@[i as int]) == SpecJson::Str(ts@[i as int]@));
        }
        i = i + 1;
    }
    proof {
        lemma_view_list_index(out@);
        assert forall|j: int|
            0 <= j < out@.len() implies view_list(out@)[j] == enc_texts(view_texts(ts@))[j] by {
            assert(view_list(out@)[j] == view_json(out@[j]));
            assert(view_texts(ts@)[j] == ts@[j]@);
        }
        assert(view_list(out@) =~= enc_texts(view_texts(ts@)));
    }
    out
}

/// Builds the telemetry items.
#[verifier::loop_isolation(false)]
fn build_tel(t: &Vec<(Vec<u8>, u8)>) -> (r: Vec<JsonValue>)
    ensures
        view_list(r@) == enc_tel(view_tel(t@)),
{
    let mut out: Vec<JsonValue> = Vec::new();
    let mut i: usize = 0;
    while i < t.len()
        invariant
            0 <= i <= t@.len(),
            out@.len() == i,
            forall|j: int|
                0 <= j < i ==> view_json(#[trigger] out@[j]) == SpecJson::Arr(
                    seq![
                        SpecJson::Str(t@[j].0@),
                        SpecJson::Num(dec_repr(t@[j].1 as int)),
                    ],
                ),
        decreases t@.len() - i,
    {
        let mut pair: Vec<JsonValue> = Vec::new();
        pair.push(JsonValue::Str(copy_bytes(&t[i].0)));
        let n = FlexibleNumber { value: t[i].1 as u64 };
        pair.push(JsonValue::Num(n.encode()));
        proof {
            lemma_view_list_index(pair@);
            assert(view_list(pair@)[0] == view_json(pair@[0]));
            assert(view_list(pair@)[1] == view_json(pair@[1]));
            assert(view_list(pair@) =~= seq![
                SpecJson::Str(t@[i as int].0@),
                SpecJson::Num(dec_repr(t@[i as int].1 as int)),
            ]);
        }
        out.push(JsonValue::Arr(pair));
        i = i + 1;
    }
    proof {
        lemma_view_list_index(out@);
        assert forall|j: int|
            0 <= j < out@.len() implies view_list(out@)[j] == enc_tel(view_tel(t@))[j] by {
            assert(view_list(out@)[j] == view_json(out@[j]));
            assert(view_tel(t@)[j] == (t@[j].0@, t@[j].1));
        }
        assert(view_list(out@) =~= enc_tel(view_tel(t@)));
    }
    out
}

/// Builds the code-substitutes members.
#[verifier::loop_isolation(false)]
fn build_cs_members(m: &Vec<(u64, HexBytes)>) -> (r: Vec<(Vec<u8>, JsonValue)>)
    ensures
        view_members(r@) == enc_cs(view_cs(m@)),
{
    let mut out: Vec<(Vec<u8>, JsonValue)> = Vec::new();
    let mut i: usize = 0;
    while i < m.len()
        invariant
            0 <= i <= m@.len(),
            out@.len() == i,
            forall|j: int|
                0 <= j < i ==> (#[trigger] out@[j].0@) == dec_repr(m@[j].0 as int),
            forall|j: int|
                0 <= j < i ==> view_json(#[trigger] out@[j].1) == SpecJson::Str(
                    HexBytes::spec_encode(m@[j].1.bytes@),
                ),
        decreases m@.len() - i,
    {
        let n = FlexibleNumber { value: m[i].0 };
        out.push((n.encode(), JsonValue::Str(m[i].1.encode())));
        proof {
            assert(out@[i as int].0@ == dec_repr(m@[i as int].0 as int));
            assert(view_json(out@[i as int].1) == SpecJson::Str(
                HexBytes::spec_encode(m@[i as int].1.bytes@),
            ));
        }
        i = i + 1;
    }
    proof {
        lemma_view_members_index(out@);
        assert forall|j: int|
            0 <= j < out@.len() implies view_members(out@)[j] == enc_cs(view_cs(m@))[j] by {
            assert(view_members(out@)[j] == (out@[j].0@, view_json(out@[j].1)));
            assert(view_cs(m@)[j] == (m@[j].0, m@[j].1.bytes@));
        }
        assert(view_members(out@) =~= enc_cs(view_cs(m@)));
    }
    out
}

/// Builds the fork-block items.
#[verifier::loop_isolation(false)]
fn build_fb(fb: &Vec<(u64, FixedHash)>) -> (r: Vec<JsonValue>)
    ensures
        view_list(r@) == enc_fb(view_fb(fb@)),
{
    let mut out: Vec<JsonValue> = Vec::new();
    let mut i: usize = 0;
    while i < fb.len()
        invariant
            0 <= i <= fb@.len(),
            out@.len() == i,
            forall|j: int|
                0 <= j < i ==> view_json(#[trigger] out@[j]) == SpecJson::Arr(
                    seq![
                        SpecJson::Num(dec_repr(fb@[j].0 as int)),
                        SpecJson::Str(FixedHash::spec_encode(fb@[j].1.bytes@)),
                    ],
                ),
        decreases fb@.len() - i,
    {
        let mut pair: Vec<JsonValue> = Vec::new();
        let n = FlexibleNumber { value: fb[i].0 };
        pair.push(JsonValue::Num(n.encode()));
        pair.push(JsonValue::Str(fb[i].1.encode()));
        proof {
            lemma_view_list_index(pair@);
            assert(view_list(pair@)[0] == view_json(pair@[0]));
            assert(view_list(pair@)[1] == view_json(pair@[1]));
            assert(view_list(pair@) =~= seq![
                SpecJson::Num(dec_repr(fb@[i as int].0 as int)),
                SpecJson::Str(FixedHash::spec_encode(fb@[i as int].1.bytes@)),
            ]);
        }
        out.push(JsonValue::Arr(pair));
        i = i + 1;
    }
    proof {
        lemma_view_list_index(out@);
        assert forall|j: int|
            0 <= j < out@.len() implies view_list(out@)[j] == enc_fb(view_fb(fb@))[j] by {
            assert(view_list(out@)[j] == view_json(out@[j]));
            assert(view_fb(fb@)[j] == (fb@[j].0, fb@[j].1.bytes@));
        }
        assert(view_list(out@) =~= enc_fb(view_fb(fb@)));
    }
    out
}

/// Builds the bad-block items.
#[verifier::loop_isolation(false)]
fn build_hashes(bb: &Vec<FixedHash>) -> (r: Vec<JsonValue>)
    ensures
        view_list(r@) == enc_hashes(view_hashes(bb@)),
{
    let mut out: Vec<JsonValue> = Vec::new();
    let mut i: usize = 0;
    while i < bb.len()
        invariant
            0 <= i <= bb@.len(),
            out@.len() == i,
            forall|j: int|
                0 <= j < i ==> view_json(#[trigger] out@[j]) == SpecJson::Str(
                    FixedHash::spec_encode(bb@[j].bytes@),
                ),
        decreases bb@.len() - i,
    {
        out.push(JsonValue::Str(bb[i].encode()));
        proof {
            assert(view_json(out@[i as int]) == SpecJson::Str(
                FixedHash::spec_encode(bb@[i as int].bytes@),
            ));
        }
        i = i + 1;
    }
    proof {
        lemma_view_list_index(out@);
        assert forall|j: int|
            0 <= j < out@.len() implies view_list(out@)[j] == enc_hashes(view_hashes(bb@))[j] by {
            assert(view_list(out@)[j] == view_json(out@[j]));
            assert(view_hashes(bb@)[j] == bb@[j].bytes@);
        }
        assert(view_list(out@) =~= enc_hashes(view_hashes(bb@)));
    }
    out
}

/// Builds the raw top-storage members.
#[verifier::loop_isolation(false)]
#[verifier::rlimit(60)]
fn build_top_members(m: &Vec<(HexBytes, HexBytes)>) -> (r: Vec<(Vec<u8>, JsonValue)>)
    ensures
        view_members(r@) == enc_top(view_top(m@)),
{
    let mut out: Vec<(Vec<u8>, JsonValue)> = Vec::new();
    let mut i: usize = 0;
    while i < m.len()
        invariant
            0 <= i <= m@.len(),
            out@.len() == i,
            forall|j: int|
                0 <= j < i ==> (#[trigger] out@[j].0@) == HexBytes::spec_encode(m@[j].0.bytes@),
            forall|j: int|
                0 <= j < i ==> view_json(#[trigger] out@[j].1) == SpecJson::Str(
                    HexBytes::spec_encode(m@[j].1.bytes@),
                ),
        decreases m@.len() - i,
    {
        out.push((m[i].0.encode(), JsonValue::Str(m[i].1.encode())));
        proof {
            assert(out@[i as int].0@ == HexBytes::spec_encode(m@[i as int].0.bytes@));
            assert(view_json(out@[i as int].1) == SpecJson::Str(
                HexBytes::spec_encode(m@[i as int].1.bytes@),
            ));
        }
        i = i + 1;
    }
    proof {
        lemma_view_members_index(out@);
        assert forall|j: int|
            0 <= j < out@.len() implies view_members(out@)[j] == enc_top(view_top(m@))[j] by {
            assert(view_members(out@)[j] == (out@[j].0@, view_json(out@[j].1)));
            assert(view_top(m@)[j] == (m@[j].0.bytes@, m@[j].1.bytes@));
        }
        assert(view_members(out@) =~= enc_top(view_top(m@)));
    }
    out
}

/// Builds a child-info byte array.
#[verifier::loop_isolation(false)]
fn build_bytes_arr(bs: &Vec<u8>) -> (r: Vec<JsonValue>)
    ensures
        view_list(r@) == enc_bytes(bs@),
{
    let mut out: Vec<JsonValue> = Vec::new();
    let mut i: usize = 0;
    while i < bs.len()
        invariant
            0 <= i <= bs@.len(),
            out@.len() == i,
            forall|j: int|
                0 <= j < i ==> view_json(#[trigger] out@[j]) == SpecJson::Num(
                    dec_repr(bs@[j] as int),
                ),
        decreases bs@.len() - i,
    {
        let n = FlexibleNumber { value: bs[i] as u64 };
        out.push(JsonValue::Num(n.encode()));
        proof {
            assert(view_json(out@[i as int]) == SpecJson::Num(dec_repr(bs@[i as int] as int)));
        }
        i = i + 1;
    }
    proof {
        lemma_view_list_index(out@);
        assert forall|j: int|
            0 <= j < out@.len() implies view_list(out@)[j] == enc_bytes(bs@)[j] by {
            assert(view_list(out@)[j] == view_json(out@[j]));
        }
        assert(view_list(out@) =~= enc_bytes(bs@));
    }
    out
}

/// Builds the children-storage members.
#[verifier::loop_isolation(false)]
#[verifier::rlimit(60)]
fn build_children_members(m: &Vec<(HexBytes, ChildStorage)>) -> (r: Vec<(Vec<u8>, JsonValue)>)
    ensures
        view_members(r@) == enc_children(view_children(m@)),
{
    let mut out: Vec<(Vec<u8>, JsonValue)> = Vec::new();
    let mut i: usize = 0;
    while i < m.len()
        invariant
            0 <= i <= m@.len(),
            out@.len() == i,
            forall|j: int|
                0 <= j < i ==> (#[trigger] out@[j].0@) == HexBytes::spec_encode(m@[j].0.bytes@),
            forall|j: int|
                0 <= j < i ==> view_json(#[trigger] out@[j].1) == enc_child(
                    SpecChild {
                        child_info: m@[j].1.child_info@,
                        child_type: m@[j].1.child_type,
                    },
                ),
        decreases m@.len() - i,
    {
        let mut child: Vec<(Vec<u8>, JsonValue)> = Vec::new();
        child.push((key_child_info_vec(), JsonValue::Arr(build_bytes_arr(&m[i].1.child_info))));
        let n = FlexibleNumber { value: m[i].1.child_type as u64 };
        child.push((key_child_type_vec(), JsonValue::Num(n.encode())));
        proof {
            lemma_view_members_index(child@);
            assert(view_members(child@)[0] == (child@[0].0@, view_json(child@[0].1)));
            assert(view_members(child@)[1] == (child@[1].0@, view_json(child@[1].1)));
            assert(view_members(child@) =~= seq![
                (
                    key_child_info(),
                    SpecJson::Arr(enc_bytes(m@[i as int].1.child_info@)),
                ),
                (
                    key_child_type(),
                    SpecJson::Num(dec_repr(m@[i as int].1.child_type as int)),
                ),
            ]);
        }
        out.push((m[i].0.encode(), JsonValue::Obj(child)));
        proof {
            assert(out@[i as int].0@ == HexBytes::spec_encode(m@[i as int].0.bytes@));
            assert(view_json(out@[i as int].1) == enc_child(
                SpecChild {
                    child_info: m@[i as int].1.child_info@,
                    child_type: m@[i as int].1.child_type,
                },
            ));
        }
        i = i + 1;
    }
    proof {
        lemma_view_members_index(out@);
        assert forall|j: int|
            0 <= j < out@.len() implies view_members(out@)[j] == enc_children(
            view_children(m@),
        )[j] by {
            assert(view_members(out@)[j] == (out@[j].0@, view_json(out@[j].1)));
            assert(view_children(m@)[j] == (
                m@[j].0.bytes@,
                SpecChild { child_info: m@[j].1.child_info@, child_type: m@[j].1.child_type },
            ));
        }
        assert(view_members(out@) =~= enc_children(view_children(m@)));
    }
    out
}

/// Builds the chain-type value.
fn build_ct(ct: &ChainType) -> (r: JsonValue)
    ensures
        view_json(r) == enc_ct(view_chain_type(*ct)),
{
    match ct {
        ChainType::Development => JsonValue::Str(key_development_vec()),
        ChainType::Local => JsonValue::Str(key_local_vec()),
        ChainType::Live => JsonValue::Str(key_live_vec()),
        ChainType::Custom(s) => {
            let mut ms: Vec<(Vec<u8>, JsonValue)> = Vec::new();
            ms.push((key_custom_vec(), JsonValue::Str(copy_bytes(s))));
            proof {
                lemma_view_members_index(ms@);
                assert(view_members(ms@) =~= seq![(key_custom(), SpecJson::Str(s@))]);
            }
            JsonValue::Obj(ms)
        },
    }
}

/// Builds the genesis value.
fn build_genesis(g: &GenesisState) -> (r: JsonValue)
    ensures
        view_json(r) == enc_genesis(view_genesis(*g)),
{
    match g {
        GenesisState::Raw { top, children_default } => {
            let mut raw: Vec<(Vec<u8>, JsonValue)> = Vec::new();
            raw.push((key_top_vec(), JsonValue::Obj(build_top_members(top))));
            raw.push((key_children_default_vec(), JsonValue::Obj(build_children_members(
                children_default,
            ))));
            proof {
                lemma_view_members_index(raw@);
                assert(view_members(raw@)[0] == (raw@[0].0@, view_json(raw@[0].1)));
                assert(view_members(raw@)[1] == (raw@[1].0@, view_json(raw@[1].1)));
                assert(view_members(raw@) =~= seq![
                    (key_top(), SpecJson::Obj(enc_top(view_top(top@)))),
                    (
                        key_children_default(),
                        SpecJson::Obj(enc_children(view_children(children_default@))),
                    ),
                ]);
            }
            let mut outer: Vec<(Vec<u8>, JsonValue)> = Vec::new();
            outer.push((key_raw_vec(), JsonValue::Obj(raw)));
            proof {
                lemma_view_members_index(outer@);
                assert(view_members(outer@)[0] == (outer@[0].0@, view_json(outer@[0].1)));
                assert(view_members(outer@) =~= seq![
                    (
                        key_raw(),
                        SpecJson::Obj(
                            seq![
                                (key_top(), SpecJson::Obj(enc_top(view_top(top@)))),
                                (
                                    key_children_default(),
                                    SpecJson::Obj(
                                        enc_children(view_children(children_default@)),
                                    ),
                                ),
                            ],
                        ),
                    ),
                ]);
            }
            JsonValue::Obj(outer)
        },
        GenesisState::StateRootHash(h) => {
            let mut outer: Vec<(Vec<u8>, JsonValue)> = Vec::new();
            outer.push((key_state_root_hash_vec(), JsonValue::Str(h.encode())));
            proof {
                lemma_view_members_index(outer@);
                assert(view_members(outer@)[0] == (outer@[0].0@, view_json(outer@[0].1)));
                assert(view_members(outer@) =~= seq![
                    (key_state_root_hash(), SpecJson::Str(FixedHash::spec_encode(h.bytes@))),
                ]);
            }
            JsonValue::Obj(outer)
        },
    }
}

impl ChainSpecDocument {
    /// Encodes the document back to its canonical JSON value.
    #[verifier::rlimit(100)]
    pub fn to_json(&self) -> (r: JsonValue)
        ensures
            view_json(r) == spec_to_json(view_doc(*self)),
    {
        let mut ms: Vec<(Vec<u8>, JsonValue)> = Vec::new();
        ms.push((key_name_vec(), JsonValue::Str(copy_bytes(&self.name))));
        ms.push((key_id_vec(), JsonValue::Str(copy_bytes(&self.id))));
        ms.push((key_chain_type_vec(), build_ct(&self.chain_type)));
        ms.push((key_code_substitutes_vec(), JsonValue::Obj(build_cs_members(
            &self.code_substitutes,
        ))));
        ms.push((key_boot_nodes_vec(), JsonValue::Arr(build_texts(&self.boot_nodes))));
        ms.push((key_telemetry_endpoints_vec(), match &self.telemetry_endpoints {
            Option::None => JsonValue::Null,
            Option::Some(t) => JsonValue::Arr(build_tel(t)),
        }));
        ms.push((key_protocol_id_vec(), match &self.protocol_id {
            Option::None => JsonValue::Null,
            Option::Some(p) => JsonValue::Str(copy_bytes(p)),
        }));
        match &self.fork_id {
            Option::None => (),
            Option::Some(f) => {
                ms.push((key_fork_id_vec(), JsonValue::Str(copy_bytes(f))));
            },
        };
        ms.push((key_properties_vec(), match &self.properties {
            Option::None => JsonValue::Null,
            Option::Some(v) => clone_json(v),
        }));
        ms.push((key_fork_blocks_vec(), match &self.fork_blocks {
            Option::None => JsonValue::Null,
            Option::Some(fb) => JsonValue::Arr(build_fb(fb)),
        }));
        ms.push((key_bad_blocks_vec(), match &self.bad_blocks {
            Option::None => JsonValue::Null,
            Option::Some(bb) => JsonValue::Arr(build_hashes(bb)),
        }));
        ms.push((key_genesis_vec(), build_genesis(&self.genesis)));
        ms.push((key_light_sync_state_vec(), match &self.light_sync_state {
            Option::None => JsonValue::Null,
            Option::Some(v) => clone_json(v),
        }));
        match &self.parachain {
            Option::None => (),
            Option::Some(p) => {
                ms.push((key_relay_chain_vec(), JsonValue::Str(copy_bytes(&p.relay_chain))));
                let n = FlexibleNumber { value: p.para_id as u64 };
                ms.push((key_para_id_vec(), JsonValue::Num(n.encode())));
            },
        };
        proof {
            lemma_view_members_index(ms@);
            let target = spec_doc_members(view_doc(*self));
            assert(view_members(ms@).len() == target.len());
            assert forall|j: int|
                0 <= j < ms@.len() implies view_members(ms@)[j] == target[j] by {
                assert(view_members(ms@)[j] == (ms@[j].0@, view_json(ms@[j].1)));
            }
            assert(view_members(ms@) =~= target);
        }
        JsonValue::Obj(ms)
    }
}

} // verus!

// The text-level interface, and the laws of the canonical member list.

verus! {

impl ChainSpecDocument {
    /// Decodes a chain specification from JSON text: the text is parsed as
    /// JSON (`spec_parse_json` says exactly which texts mean which values),
    /// and the value is decoded by the document grammar. Text that is not
    /// JSON fails with a format error carrying an empty field name.
    pub fn decode(text: &[u8]) -> (r: Result<ChainSpecDocument, DecodeError>)
        ensures
            match spec_parse_json(text@) {
                Some(sj) => match r {
                    Ok(d) => spec_decode_doc(sj) == Ok::<SpecDoc, SpecErr>(view_doc(d)),
                    Err(e) => spec_decode_doc(sj) == Err::<SpecDoc, SpecErr>(view_err(e)),
                },
                None => r matches Err(e) && view_err(e) == SpecErr::Format(Seq::empty()),
            },
    {
        match parse_json(text) {
            Some(v) => Self::from_json(&v),
            None => {
                let empty: Vec<u8> = Vec::new();
                proof {
                    assert(empty@ =~= Seq::<u8>::empty());
                }
                Err(DecodeError::Format { field: empty })
            },
        }
    }

    /// Encodes the document as canonical JSON text: compact, members in
    /// canonical order, hex in lowercase, numbers in decimal.
    pub fn encode(&self) -> (r: Vec<u8>)
        ensures
            r@ == spec_json_text(spec_to_json(view_doc(*self))),
    {
        let v = self.to_json();
        json_to_text(&v)
    }
}

/// Law: a document without a fork identifier encodes to a member list that
/// holds no `forkId` member at all, while a present fork identifier is
/// emitted under that one name. The key is omitted, never written as null.
pub proof fn lemma_fork_id_emission(sd: SpecDoc)
    ensures
        sd.fork_id is None ==> forall|i: int|
            0 <= i < spec_doc_members(sd).len() ==> (#[trigger] spec_doc_members(sd)[i].0)
                != key_fork_id(),
        sd.fork_id matches Some(s) ==> exists|i: int|
            0 <= i < spec_doc_members(sd).len() && (#[trigger] spec_doc_members(sd)[i]) == (
                key_fork_id(),
                SpecJson::Str(s),
            ),
{
    let ms = spec_doc_members(sd);
    if sd.fork_id is None {
        assert forall|i: int| 0 <= i < ms.len() implies (#[trigger] ms[i].0) != key_fork_id() by {
            assert(key_name().len() == 4);
            assert(key_id().len() == 2);
            assert(key_chain_type().len() == 9);
            assert(key_code_substitutes().len() == 15);
            assert(key_boot_nodes().len() == 9);
            assert(key_telemetry_endpoints().len() == 18);
            assert(key_protocol_id().len() == 10);
            assert(key_fork_id().len() == 6);
            assert(key_properties().len() == 10);
            assert(key_fork_blocks().len() == 10);
            assert(key_bad_blocks().len() == 9);
            assert(key_genesis().len() == 7);
            assert(key_light_sync_state().len() == 14);
            assert(key_relay_chain().len() == 10);
            assert(key_para_id().len() == 6);
            assert(key_para_id()[0] == 112);
            assert(key_fork_id()[0] == 102);
        }
    }
    if sd.fork_id is Some {
        let s = sd.fork_id->0;
        assert(ms[7] == (key_fork_id(), SpecJson::Str(s)));
    }
}

/// Law: a document decoded from a value without a `forkId` member has no
/// fork identifier, so its re-encoding never emits that key; one decoded
/// with `"forkId"` bound to a text keeps that text.
pub proof fn lemma_fork_id_round_trip(ms: Seq<(Seq<u8>, SpecJson)>, sd: SpecDoc)
    requires
        spec_decode_doc(SpecJson::Obj(ms)) == Ok::<SpecDoc, SpecErr>(sd),
    ensures
        !has_key(ms, key_fork_id()) ==> sd.fork_id is None && forall|i: int|
            0 <= i < spec_doc_members(sd).len() ==> (#[trigger] spec_doc_members(sd)[i].0)
                != key_fork_id(),
        has_key(ms, key_fork_id()) ==> (lookup(ms, key_fork_id()) matches SpecJson::Str(s)
            ==> sd.fork_id == Some::<Seq<u8>>(s)),
{
    assert(spec_opt_text(ms, key_fork_id()) is Ok);
    assert(sd.fork_id == spec_opt_text(ms, key_fork_id())->Ok_0);
    lemma_fork_id_emission(sd);
}

} // verus!

// The ordering laws of the raw storage map.

verus! {

/// A storage map whose keys ascend strictly in byte order.
pub open spec fn sorted_top(m: Seq<(Seq<u8>, Seq<u8>)>) -> bool {
    forall|i: int, j: int| 0 <= i < j < m.len() ==> bytes_lt(#[trigger] m[i].0, #[trigger] m[j].0)
}

/// Byte order is transitive.
pub proof fn lemma_bytes_lt_trans(a: Seq<u8>, b: Seq<u8>, c: Seq<u8>)
    requires
        bytes_lt(a, b),
        bytes_lt(b, c),
    ensures
        bytes_lt(a, c),
    decreases a.len(),
{
    if a.len() > 0 {
        if a[0] == b[0] && b[0] == c[0] {
            lemma_bytes_lt_trans(a.drop_first(), b.drop_first(), c.drop_first());
        }
    }
}

/// Byte order is total: two sequences compare one way, the other way, or
/// are equal.
#[verifier::rlimit(50)]
pub proof fn lemma_bytes_lt_total(a: Seq<u8>, b: Seq<u8>)
    ensures
        bytes_lt(a, b) || bytes_lt(b, a) || a == b,
    decreases a.len(),
{
    if a.len() == 0 && b.len() == 0 {
        assert(a =~= b);
    } else if a.len() > 0 && b.len() > 0 {
        if a[0] == b[0] {
            lemma_bytes_lt_total(a.drop_first(), b.drop_first());
            if a.drop_first() == b.drop_first() {
                assert forall|i: int| 0 <= i < a.len() implies a[i] == b[i] by {
                    if i > 0 {
                        assert(a[i] == a.drop_first()[i - 1]);
                        assert(b[i] == b.drop_first()[i - 1]);
                    }
                }
                assert(a =~= b);
            }
        }
    }
}

/// Inserting into a sorted storage map keeps it sorted, and adds no key but
/// the inserted one.
pub proof fn lemma_ins_bytes_sorted(m: Seq<(Seq<u8>, Seq<u8>)>, k: Seq<u8>, v: Seq<u8>)
    requires
        sorted_top(m),
    ensures
        sorted_top(ins_bytes(m, k, v)),
        forall|t: int|
            0 <= t < ins_bytes(m, k, v).len() ==> ((#[trigger] ins_bytes(m, k, v)[t].0) == k
                || exists|s: int| 0 <= s < m.len() && (#[trigger] m[s].0) == ins_bytes(m, k, v)[t].0),
    decreases m.len(),
{
    let r = ins_bytes(m, k, v);
    if m.len() == 0 {
        assert(r == seq![(k, v)]);
    } else if bytes_lt(k, m[0].0) {
        assert(r == seq![(k, v)] + m);
        assert forall|i: int, j: int| 0 <= i < j < r.len() implies bytes_lt(
            #[trigger] r[i].0,
            #[trigger] r[j].0,
        ) by {
            if i == 0 {
                assert(r[j].0 == m[j - 1].0);
                if j - 1 > 0 {
                    lemma_bytes_lt_trans(k, m[0].0, m[j - 1].0);
                }
            } else {
                assert(r[i].0 == m[i - 1].0);
                assert(r[j].0 == m[j - 1].0);
            }
        }
    } else if k == m[0].0 {
        assert(r == seq![(k, v)] + m.drop_first());
        assert forall|i: int, j: int| 0 <= i < j < r.len() implies bytes_lt(
            #[trigger] r[i].0,
            #[trigger] r[j].0,
        ) by {
            if i == 0 {
                assert(r[j].0 == m.drop_first()[j - 1].0);
                assert(m.drop_first()[j - 1] == m[j]);
            } else {
                assert(r[i].0 == m[i].0);
                assert(r[j].0 == m[j].0);
            }
        }
        assert forall|t: int|
            0 <= t < r.len() implies ((#[trigger] r[t].0) == k || exists|s: int|
                0 <= s < m.len() && (#[trigger] m[s].0) == r[t].0) by {
            if t > 0 {
                assert(r[t].0 == m[t].0);
            }
        }
    } else {
        lemma_bytes_lt_total(k, m[0].0);
        assert(bytes_lt(m[0].0, k));
        let m1 = m.drop_first();
        assert forall|i: int, j: int| 0 <= i < j < m1.len() implies bytes_lt(
            #[trigger] m1[i].0,
            #[trigger] m1[j].0,
        ) by {
            assert(m1[i] == m[i + 1]);
            assert(m1[j] == m[j + 1]);
        }
        lemma_ins_bytes_sorted(m1, k, v);
        let r1 = ins_bytes(m1, k, v);
        assert(r == seq![m[0]] + r1);
        assert forall|i: int, j: int| 0 <= i < j < r.len() implies bytes_lt(
            #[trigger] r[i].0,
            #[trigger] r[j].0,
        ) by {
            if i == 0 {
                assert(r[j].0 == r1[j - 1].0);
                if r1[j - 1].0 == k {
                    assert(bytes_lt(m[0].0, k));
                } else {
                    let s = choose|s: int| 0 <= s < m1.len() && (#[trigger] m1[s].0) == r1[j - 1].0;
                    assert(m1[s] == m[s + 1]);
                    assert(bytes_lt(m[0].0, m[s + 1].0));
                }
            } else {
                assert(r[i].0 == r1[i - 1].0);
                assert(r[j].0 == r1[j - 1].0);
            }
        }
        assert forall|t: int|
            0 <= t < r.len() implies ((#[trigger] r[t].0) == k || exists|s: int|
                0 <= s < m.len() && (#[trigger] m[s].0) == r[t].0) by {
            if t == 0 {
                assert(m[0].0 == r[0].0);
            } else {
                assert(r[t].0 == r1[t - 1].0);
                if r1[t - 1].0 != k {
                    let s = choose|s: int| 0 <= s < m1.len() && (#[trigger] m1[s].0) == r1[t - 1].0;
                    assert(m[s + 1].0 == r[t].0);
                }
            }
        }
    }
}

/// Whatever the raw top storage is built from, the result is sorted.
pub proof fn lemma_top_go_sorted(inner: Seq<(Seq<u8>, SpecJson)>, acc: Seq<(Seq<u8>, Seq<u8>)>)
    requires
        sorted_top(acc),
    ensures
        spec_top_go(inner, acc) matches Some(m) ==> sorted_top(m),
    decreases inner.len(),
{
    if inner.len() > 0 {
        match HexBytes::spec_decode(inner[0].0) {
            Ok(kb) => {
                match inner[0].1 {
                    SpecJson::Str(s) => {
                        match HexBytes::spec_decode(s) {
                            Ok(vb) => {
                                lemma_ins_bytes_sorted(acc, kb, vb);
                                lemma_top_go_sorted(inner.drop_first(), ins_bytes(acc, kb, vb));
                            },
                            Err(_) => {},
                        }
                    },
                    _ => {},
                }
            },
            Err(_) => {},
        }
    }
}

/// Law: the top-level raw storage of any decoded document is sorted by
/// ascending byte order of the keys, whatever order the source document
/// gave them in, and re-encoding emits the entries in exactly that order,
/// each key as its hex text.
pub proof fn lemma_storage_order(ms: Seq<(Seq<u8>, SpecJson)>, sd: SpecDoc)
    requires
        spec_decode_doc(SpecJson::Obj(ms)) == Ok::<SpecDoc, SpecErr>(sd),
    ensures
        sd.genesis matches SpecGenesis::Raw { top, children_default } ==> sorted_top(top)
            && forall|i: int|
            0 <= i < top.len() ==> (#[trigger] enc_top(top)[i]) == (
                HexBytes::spec_encode(top[i].0),
                SpecJson::Str(HexBytes::spec_encode(top[i].1)),
            ),
{
    assert(spec_genesis(ms) is Ok);
    assert(sd.genesis == spec_genesis(ms)->Ok_0);
    if sd.genesis is Raw {
        let g = lookup(ms, key_genesis());
        match g {
            SpecJson::Obj(inner) => {
                assert(inner.len() == 1);
                if inner[0].0 == key_raw() {
                    let v = inner[0].1;
                    assert(spec_raw_genesis(v) == Ok::<SpecGenesis, SpecErr>(sd.genesis));
                    match v {
                        SpecJson::Obj(inner2) => {
                            match lookup(inner2, key_top()) {
                                SpecJson::Obj(entries) => {
                                    assert(sorted_top(Seq::<(Seq<u8>, Seq<u8>)>::empty()));
                                    lemma_top_go_sorted(
                                        entries,
                                        Seq::<(Seq<u8>, Seq<u8>)>::empty(),
                                    );
                                },
                                _ => {},
                            }
                        },
                        _ => {},
                    }
                } else {
                    assert(inner[0].0 == key_state_root_hash());
                    assert(!(sd.genesis is Raw));
                }
            },
            _ => {},
        }
    }
}

} // verus!

// The strict-schema law.

verus! {

/// Steps the member scan from `j` up to the first unrecognized name.
proof fn lemma_key_scan_reaches(ms: Seq<(Seq<u8>, SpecJson)>, j: int, i: int)
    requires
        0 <= j <= i < ms.len(),
        !is_known_key(ms[i].0),
        forall|t: int| 0 <= t < i ==> is_known_key(#[trigger] ms[t].0),
        forall|s: int, t: int| 0 <= s < t <= i ==> (#[trigger] ms[s].0) != (#[trigger] ms[t].0),
    ensures
        key_scan(ms, j) == Option::Some(SpecErr::UnknownField(ms[i].0)),
    decreases i - j,
{
    if j == i {
        assert(!(exists|s: int| 0 <= s < j && (#[trigger] ms[s].0) == ms[j].0));
    } else {
        assert(is_known_key(ms[j].0));
        assert(!(exists|s: int| 0 <= s < j && (#[trigger] ms[s].0) == ms[j].0));
        lemma_key_scan_reaches(ms, j + 1, i);
    }
}

/// Law: a document whose member list holds one unrecognized name, the
/// earlier names all recognized and distinct, fails whole-document decoding
/// with an unknown-field error naming exactly that member.
pub proof fn lemma_unknown_field_rejected(ms: Seq<(Seq<u8>, SpecJson)>, i: int)
    requires
        0 <= i < ms.len(),
        !is_known_key(ms[i].0),
        forall|t: int| 0 <= t < i ==> is_known_key(#[trigger] ms[t].0),
        forall|s: int, t: int| 0 <= s < t <= i ==> (#[trigger] ms[s].0) != (#[trigger] ms[t].0),
    ensures
        spec_decode_doc(SpecJson::Obj(ms)) == Err::<SpecDoc, SpecErr>(
            SpecErr::UnknownField(ms[i].0),
        ),
{
    lemma_key_scan_reaches(ms, 0, i);
}

} // verus!

// The round trip of the raw storage map.

verus! {

/// Byte order is asymmetric.
pub proof fn lemma_bytes_lt_asym(a: Seq<u8>, b: Seq<u8>)
    requires
        bytes_lt(a, b),
    ensures
        !bytes_lt(b, a),
        a != b,
    decreases a.len(),
{
    if a.len() > 0 && a[0] == b[0] {
        lemma_bytes_lt_asym(a.drop_first(), b.drop_first());
    }
}

/// Inserting a key above every present key appends.
pub proof fn lemma_ins_bytes_append(m: Seq<(Seq<u8>, Seq<u8>)>, k: Seq<u8>, v: Seq<u8>)
    requires
        forall|t: int| 0 <= t < m.len() ==> bytes_lt(#[trigger] m[t].0, k),
    ensures
        ins_bytes(m, k, v) == m.push((k, v)),
    decreases m.len(),
{
    if m.len() == 0 {
        assert(ins_bytes(m, k, v) =~= m.push((k, v)));
    } else {
        lemma_bytes_lt_asym(m[0].0, k);
        let m1 = m.drop_first();
        assert forall|t: int| 0 <= t < m1.len() implies bytes_lt(#[trigger] m1[t].0, k) by {
            assert(m1[t] == m[t + 1]);
        }
        lemma_ins_bytes_append(m1, k, v);
        assert(ins_bytes(m, k, v) =~= m.push((k, v)));
    }
}

/// Rebuilding from the encoded entries, from position `i` on, recovers the
/// stored suffix.
proof fn lemma_top_rebuild_from(top: Seq<(Seq<u8>, Seq<u8>)>, i: int, acc: Seq<(Seq<u8>, Seq<u8>)>)
    requires
        0 <= i <= top.len(),
        sorted_top(acc + top.skip(i)),
    ensures
        spec_top_go(enc_top(top).skip(i), acc) == Option::Some(acc + top.skip(i)),
    decreases top.len() - i,
{
    let entries = enc_top(top).skip(i);
    if i == top.len() {
        assert(entries.len() == 0);
        assert(acc + top.skip(i) =~= acc);
    } else {
        let k = top[i].0;
        let v = top[i].1;
        assert(entries[0] == enc_top(top)[i]);
        assert(enc_top(top)[i] == (HexBytes::spec_encode(k), SpecJson::Str(
            HexBytes::spec_encode(v),
        )));
        crate::codec::lemma_hex_bytes_round_trip(k);
        crate::codec::lemma_hex_bytes_round_trip(v);
        assert forall|t: int| 0 <= t < acc.len() implies bytes_lt(#[trigger] acc[t].0, k) by {
            let c = acc + top.skip(i);
            assert(c[t] == acc[t]);
            assert(c[acc.len() as int] == top.skip(i)[0]);
            assert(top.skip(i)[0] == top[i]);
        }
        lemma_ins_bytes_append(acc, k, v);
        let acc2 = acc.push((k, v));
        assert(acc2 + top.skip(i + 1) =~= acc + top.skip(i));
        assert(entries.drop_first() =~= enc_top(top).skip(i + 1));
        lemma_top_rebuild_from(top, i + 1, acc2);
    }
}

/// Law: a sorted raw top storage, re-encoded to its hex entries, decodes
/// back to exactly the same map.
pub proof fn lemma_storage_round_trip(top: Seq<(Seq<u8>, Seq<u8>)>)
    requires
        sorted_top(top),
    ensures
        spec_top_go(enc_top(top), Seq::empty()) == Option::Some(top),
{
    assert(Seq::<(Seq<u8>, Seq<u8>)>::empty() + top.skip(0) =~= top);
    lemma_top_rebuild_from(top, 0, Seq::empty());
    assert(enc_top(top).skip(0) =~= enc_top(top));
}

} // verus!

// The round trips of the code-substitutes map and the bad-block set.

verus! {

/// A code-substitutes map whose keys ascend strictly.
pub open spec fn sorted_cs(m: Seq<(u64, Seq<u8>)>) -> bool {
    forall|i: int, j: int| 0 <= i < j < m.len() ==> (#[trigger] m[i].0) < (#[trigger] m[j].0)
}

/// Inserting a key above every present key appends.
pub proof fn lemma_ins_u64_append(m: Seq<(u64, Seq<u8>)>, k: u64, v: Seq<u8>)
    requires
        forall|t: int| 0 <= t < m.len() ==> (#[trigger] m[t].0) < k,
    ensures
        ins_u64(m, k, v) == m.push((k, v)),
    decreases m.len(),
{
    if m.len() == 0 {
        assert(ins_u64(m, k, v) =~= m.push((k, v)));
    } else {
        let m1 = m.drop_first();
        assert forall|t: int| 0 <= t < m1.len() implies (#[trigger] m1[t].0) < k by {
            assert(m1[t] == m[t + 1]);
        }
        lemma_ins_u64_append(m1, k, v);
        assert(ins_u64(m, k, v) =~= m.push((k, v)));
    }
}

/// Rebuilding from the encoded members, from position `i` on, recovers the
/// stored suffix.
proof fn lemma_cs_rebuild_from(cs: Seq<(u64, Seq<u8>)>, i: int, acc: Seq<(u64, Seq<u8>)>)
    requires
        0 <= i <= cs.len(),
        sorted_cs(acc + cs.skip(i)),
    ensures
        spec_cs_go(enc_cs(cs).skip(i), acc) == Option::Some(acc + cs.skip(i)),
    decreases cs.len() - i,
{
    let entries = enc_cs(cs).skip(i);
    if i == cs.len() {
        assert(entries.len() == 0);
        assert(acc + cs.skip(i) =~= acc);
    } else {
        let k = cs[i].0;
        let v = cs[i].1;
        assert(entries[0] == enc_cs(cs)[i]);
        assert(enc_cs(cs)[i] == (dec_repr(k as int), SpecJson::Str(HexBytes::spec_encode(v))));
        crate::codec::lemma_flexible_number_round_trip(k);
        crate::codec::lemma_hex_bytes_round_trip(v);
        assert forall|t: int| 0 <= t < acc.len() implies (#[trigger] acc[t].0) < k by {
            let c = acc + cs.skip(i);
            assert(c[t] == acc[t]);
            assert(c[acc.len() as int] == cs.skip(i)[0]);
            assert(cs.skip(i)[0] == cs[i]);
        }
        lemma_ins_u64_append(acc, k, v);
        let acc2 = acc.push((k, v));
        assert(acc2 + cs.skip(i + 1) =~= acc + cs.skip(i));
        assert(entries.drop_first() =~= enc_cs(cs).skip(i + 1));
        lemma_cs_rebuild_from(cs, i + 1, acc2);
    }
}

/// Law: a sorted code-substitutes map, re-encoded to its decimal-keyed
/// members, decodes back to exactly the same map.
pub proof fn lemma_code_substitutes_round_trip(cs: Seq<(u64, Seq<u8>)>)
    requires
        sorted_cs(cs),
    ensures
        spec_cs_go(enc_cs(cs), Seq::empty()) == Option::Some(cs),
{
    assert(Seq::<(u64, Seq<u8>)>::empty() + cs.skip(0) =~= cs);
    lemma_cs_rebuild_from(cs, 0, Seq::empty());
    assert(enc_cs(cs).skip(0) =~= enc_cs(cs));
}

/// A hash set whose elements ascend strictly in byte order.
pub open spec fn sorted_hashes(m: Seq<Seq<u8>>) -> bool {
    forall|i: int, j: int| 0 <= i < j < m.len() ==> bytes_lt(#[trigger] m[i], #[trigger] m[j])
}

/// Inserting an element above every present one appends.
pub proof fn lemma_ins_hash_append(m: Seq<Seq<u8>>, h: Seq<u8>)
    requires
        forall|t: int| 0 <= t < m.len() ==> bytes_lt(#[trigger] m[t], h),
    ensures
        ins_hash(m, h) == m.push(h),
    decreases m.len(),
{
    if m.len() == 0 {
        assert(ins_hash(m, h) =~= m.push(h));
    } else {
        lemma_bytes_lt_asym(m[0], h);
        let m1 = m.drop_first();
        assert forall|t: int| 0 <= t < m1.len() implies bytes_lt(#[trigger] m1[t], h) by {
            assert(m1[t] == m[t + 1]);
        }
        lemma_ins_hash_append(m1, h);
        assert(ins_hash(m, h) =~= m.push(h));
    }
}

/// Rebuilding the set from its encoded items, from position `i` on,
/// recovers the stored suffix.
proof fn lemma_bb_rebuild_from(bb: Seq<Seq<u8>>, i: int, acc: Seq<Seq<u8>>)
    requires
        0 <= i <= bb.len(),
        sorted_hashes(acc + bb.skip(i)),
        forall|t: int| 0 <= t < bb.len() ==> (#[trigger] bb[t]).len() == 32,
    ensures
        spec_bb_go(enc_hashes(bb).skip(i), acc) == Ok::<Seq<Seq<u8>>, SpecErr>(acc + bb.skip(i)),
    decreases bb.len() - i,
{
    let entries = enc_hashes(bb).skip(i);
    if i == bb.len() {
        assert(entries.len() == 0);
        assert(acc + bb.skip(i) =~= acc);
    } else {
        let h = bb[i];
        assert(entries[0] == enc_hashes(bb)[i]);
        assert(enc_hashes(bb)[i] == SpecJson::Str(FixedHash::spec_encode(h)));
        crate::codec::lemma_fixed_hash_round_trip(h);
        assert forall|t: int| 0 <= t < acc.len() implies bytes_lt(#[trigger] acc[t], h) by {
            let c = acc + bb.skip(i);
            assert(c[t] == acc[t]);
            assert(c[acc.len() as int] == bb.skip(i)[0]);
            assert(bb.skip(i)[0] == bb[i]);
        }
        lemma_ins_hash_append(acc, h);
        let acc2 = acc.push(h);
        assert(acc2 + bb.skip(i + 1) =~= acc + bb.skip(i));
        assert(entries.drop_first() =~= enc_hashes(bb).skip(i + 1));
        lemma_bb_rebuild_from(bb, i + 1, acc2);
    }
}

/// Law: a sorted set of 32-byte hashes, re-encoded to its hex items,
/// decodes back to exactly the same set.
pub proof fn lemma_bad_blocks_round_trip(bb: Seq<Seq<u8>>)
    requires
        sorted_hashes(bb),
        forall|t: int| 0 <= t < bb.len() ==> (#[trigger] bb[t]).len() == 32,
    ensures
        spec_bb_go(enc_hashes(bb), Seq::empty()) == Ok::<Seq<Seq<u8>>, SpecErr>(bb),
{
    assert(Seq::<Seq<u8>>::empty() + bb.skip(0) =~= bb);
    lemma_bb_rebuild_from(bb, 0, Seq::empty());
    assert(enc_hashes(bb).skip(0) =~= enc_hashes(bb));
}

} // verus!

// Every decoded document's maps are sorted, so the round-trip laws above
// hold of every decoding.

verus! {

/// Inserting into a sorted code-substitutes map keeps it sorted, and adds
/// no key but the inserted one.
pub proof fn lemma_ins_u64_sorted(m: Seq<(u64, Seq<u8>)>, k: u64, v: Seq<u8>)
    requires
        sorted_cs(m),
    ensures
        sorted_cs(ins_u64(m, k, v)),
        forall|t: int|
            0 <= t < ins_u64(m, k, v).len() ==> ((#[trigger] ins_u64(m, k, v)[t].0) == k
                || exists|s: int| 0 <= s < m.len() && (#[trigger] m[s].0) == ins_u64(m, k, v)[t].0),
    decreases m.len(),
{
    let r = ins_u64(m, k, v);
    if m.len() == 0 {
    } else if k < m[0].0 {
        assert(r == seq![(k, v)] + m);
        assert forall|i: int, j: int| 0 <= i < j < r.len() implies (#[trigger] r[i].0) < (
        #[trigger] r[j].0) by {
            if i > 0 {
                assert(r[i] == m[i - 1]);
            }
            assert(r[j] == m[j - 1]);
        }
    } else if k == m[0].0 {
        assert(r == seq![(k, v)] + m.drop_first());
        assert forall|i: int, j: int| 0 <= i < j < r.len() implies (#[trigger] r[i].0) < (
        #[trigger] r[j].0) by {
            if i > 0 {
                assert(r[i] == m.drop_first()[i - 1]);
                assert(m.drop_first()[i - 1] == m[i]);
            }
            assert(r[j] == m.drop_first()[j - 1]);
            assert(m.drop_first()[j - 1] == m[j]);
        }
        assert forall|t: int|
            0 <= t < r.len() implies ((#[trigger] r[t].0) == k || exists|s: int|
                0 <= s < m.len() && (#[trigger] m[s].0) == r[t].0) by {
            if t > 0 {
                assert(r[t].0 == m[t].0);
            }
        }
    } else {
        let m1 = m.drop_first();
        assert forall|i: int, j: int| 0 <= i < j < m1.len() implies (#[trigger] m1[i].0) < (
        #[trigger] m1[j].0) by {
            assert(m1[i] == m[i + 1]);
            assert(m1[j] == m[j + 1]);
        }
        lemma_ins_u64_sorted(m1, k, v);
        let r1 = ins_u64(m1, k, v);
        assert(r == seq![m[0]] + r1);
        assert forall|i: int, j: int| 0 <= i < j < r.len() implies (#[trigger] r[i].0) < (
        #[trigger] r[j].0) by {
            if i == 0 {
                assert(r[j].0 == r1[j - 1].0);
                if r1[j - 1].0 != k {
                    let s = choose|s: int| 0 <= s < m1.len() && (#[trigger] m1[s].0) == r1[j - 1].0;
                    assert(m1[s] == m[s + 1]);
                }
            } else {
                assert(r[i].0 == r1[i - 1].0);
                assert(r[j].0 == r1[j - 1].0);
            }
        }
        assert forall|t: int|
            0 <= t < r.len() implies ((#[trigger] r[t].0) == k || exists|s: int|
                0 <= s < m.len() && (#[trigger] m[s].0) == r[t].0) by {
            if t == 0 {
                assert(m[0].0 == r[0].0);
            } else {
                assert(r[t].0 == r1[t - 1].0);
                if r1[t - 1].0 != k {
                    let s = choose|s: int| 0 <= s < m1.len() && (#[trigger] m1[s].0) == r1[t - 1].0;
                    assert(m[s + 1].0 == r[t].0);
                }
            }
        }
    }
}

/// Inserting into a sorted hash set keeps it sorted, and adds no element
/// but the inserted one.
pub proof fn lemma_ins_hash_sorted(m: Seq<Seq<u8>>, h: Seq<u8>)
    requires
        sorted_hashes(m),
    ensures
        sorted_hashes(ins_hash(m, h)),
        forall|t: int|
            0 <= t < ins_hash(m, h).len() ==> ((#[trigger] ins_hash(m, h)[t]) == h || exists|s: int|
                0 <= s < m.len() && (#[trigger] m[s]) == ins_hash(m, h)[t]),
    decreases m.len(),
{
    let r = ins_hash(m, h);
    if m.len() == 0 {
    } else if bytes_lt(h, m[0]) {
        assert(r == seq![h] + m);
        assert forall|i: int, j: int| 0 <= i < j < r.len() implies bytes_lt(
            #[trigger] r[i],
            #[trigger] r[j],
        ) by {
            if i == 0 {
                assert(r[j] == m[j - 1]);
                if j - 1 > 0 {
                    lemma_bytes_lt_trans(h, m[0], m[j - 1]);
                }
            } else {
                assert(r[i] == m[i - 1]);
                assert(r[j] == m[j - 1]);
            }
        }
    } else if h == m[0] {
    } else {
        lemma_bytes_lt_total(h, m[0]);
        assert(bytes_lt(m[0], h));
        let m1 = m.drop_first();
        assert forall|i: int, j: int| 0 <= i < j < m1.len() implies bytes_lt(
            #[trigger] m1[i],
            #[trigger] m1[j],
        ) by {
            assert(m1[i] == m[i + 1]);
            assert(m1[j] == m[j + 1]);
        }
        lemma_ins_hash_sorted(m1, h);
        let r1 = ins_hash(m1, h);
        assert(r == seq![m[0]] + r1);
        assert forall|i: int, j: int| 0 <= i < j < r.len() implies bytes_lt(
            #[trigger] r[i],
            #[trigger] r[j],
        ) by {
            if i == 0 {
                assert(r[j] == r1[j - 1]);
                if r1[j - 1] == h {
                    assert(bytes_lt(m[0], h));
                } else {
                    let s = choose|s: int| 0 <= s < m1.len() && (#[trigger] m1[s]) == r1[j - 1];
                    assert(m1[s] == m[s + 1]);
                    assert(bytes_lt(m[0], m[s + 1]));
                }
            } else {
                assert(r[i] == r1[i - 1]);
                assert(r[j] == r1[j - 1]);
            }
        }
        assert forall|t: int|
            0 <= t < r.len() implies ((#[trigger] r[t]) == h || exists|s: int|
                0 <= s < m.len() && (#[trigger] m[s]) == r[t]) by {
            if t == 0 {
                assert(m[0] == r[0]);
            } else {
                assert(r[t] == r1[t - 1]);
                if r1[t - 1] != h {
                    let s = choose|s: int| 0 <= s < m1.len() && (#[trigger] m1[s]) == r1[t - 1];
                    assert(m[s + 1] == r[t]);
                }
            }
        }
    }
}

/// Whatever the code-substitutes map is built from, the result is sorted.
pub proof fn lemma_cs_go_sorted(inner: Seq<(Seq<u8>, SpecJson)>, acc: Seq<(u64, Seq<u8>)>)
    requires
        sorted_cs(acc),
    ensures
        spec_cs_go(inner, acc) matches Some(m) ==> sorted_cs(m),
    decreases inner.len(),
{
    if inner.len() > 0 {
        match FlexibleNumber::spec_decode(inner[0].0) {
            Ok(kn) => {
                match inner[0].1 {
                    SpecJson::Str(s) => {
                        match HexBytes::spec_decode(s) {
                            Ok(bs) => {
                                lemma_ins_u64_sorted(acc, kn, bs);
                                lemma_cs_go_sorted(inner.drop_first(), ins_u64(acc, kn, bs));
                            },
                            Err(_) => {},
                        }
                    },
                    _ => {},
                }
            },
            Err(_) => {},
        }
    }
}

/// Whatever the bad-block set is built from, the result is sorted and each
/// element holds 32 bytes.
pub proof fn lemma_bb_go_sorted(items: Seq<SpecJson>, acc: Seq<Seq<u8>>)
    requires
        sorted_hashes(acc),
        forall|t: int| 0 <= t < acc.len() ==> (#[trigger] acc[t]).len() == 32,
    ensures
        spec_bb_go(items, acc) matches Ok(bb) ==> sorted_hashes(bb) && forall|t: int|
            0 <= t < bb.len() ==> (#[trigger] bb[t]).len() == 32,
    decreases items.len(),
{
    if items.len() > 0 {
        match items[0] {
            SpecJson::Str(s) => {
                match FixedHash::spec_decode(s) {
                    Ok(h) => {
                        assert(h.len() == 32);
                        lemma_ins_hash_sorted(acc, h);
                        let acc2 = ins_hash(acc, h);
                        assert forall|t: int|
                            0 <= t < acc2.len() implies (#[trigger] acc2[t]).len() == 32 by {
                            if acc2[t] != h {
                                let u = choose|u: int|
                                    0 <= u < acc.len() && (#[trigger] acc[u]) == acc2[t];
                            }
                        }
                        lemma_bb_go_sorted(items.drop_first(), acc2);
                    },
                    Err(_) => {},
                }
            },
            _ => {},
        }
    }
}

/// Law: in every decoded document the code-substitutes map ascends by key,
/// and the bad-block set, when present, ascends by byte value with every
/// element exactly 32 bytes long.
pub proof fn lemma_decoded_maps_sorted(ms: Seq<(Seq<u8>, SpecJson)>, sd: SpecDoc)
    requires
        spec_decode_doc(SpecJson::Obj(ms)) == Ok::<SpecDoc, SpecErr>(sd),
    ensures
        sorted_cs(sd.code_substitutes),
        sd.bad_blocks matches Some(bb) ==> sorted_hashes(bb) && forall|t: int|
            0 <= t < bb.len() ==> (#[trigger] bb[t]).len() == 32,
{
    assert(spec_code_substitutes(ms) is Ok);
    assert(sd.code_substitutes == spec_code_substitutes(ms)->Ok_0);
    if has_key(ms, key_code_substitutes()) {
        match lookup(ms, key_code_substitutes()) {
            SpecJson::Obj(inner) => {
                assert(sorted_cs(Seq::<(u64, Seq<u8>)>::empty()));
                lemma_cs_go_sorted(inner, Seq::empty());
            },
            _ => {},
        }
    }
    assert(spec_bad_blocks(ms) is Ok);
    assert(sd.bad_blocks == spec_bad_blocks(ms)->Ok_0);
    if has_key(ms, key_bad_blocks()) {
        match lookup(ms, key_bad_blocks()) {
            SpecJson::Arr(items) => {
                assert(sorted_hashes(Seq::<Seq<u8>>::empty()));
                lemma_bb_go_sorted(items, Seq::empty());
            },
            _ => {},
        }
    }
}

} // verus!
