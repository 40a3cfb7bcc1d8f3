use vstd::prelude::*;

verus! {

broadcast use vstd::std_specs::vec::axiom_vec_index_decreases;

/// A MIDI message carried as an argument: four raw bytes.
#[derive(Debug, Clone, Copy, PartialEq, Eq)]
pub struct OscMidiMessage {
    pub port: u8,
    pub status: u8,
    pub data1: u8,
    pub data2: u8,
}

/// An RGBA color carried as an argument: four raw bytes.
#[derive(Debug, Clone, Copy, PartialEq, Eq)]
pub struct OscColor {
    pub red: u8,
    pub green: u8,
    pub blue: u8,
    pub alpha: u8,
}

/// One OSC argument value.
///
/// `Float` and `Double` hold the IEEE-754 bit pattern of the number
/// (`f32::to_bits`, `f64::to_bits`), which is exactly what travels on the wire.
#[derive(Debug, PartialEq)]
pub enum OscType {
    Int(i32),
    Float(u32),
    String(String),
    Blob(Vec<u8>),
    Time(u32, u32),
    Long(i64),
    Double(u64),
    Char(char),
    Color(OscColor),
    Midi(OscMidiMessage),
    Bool(bool),
    Nil,
    Inf,
    Array(Vec<OscType>),
}

/// An *osc packet* can contain an *osc message* or a bundle of nested messages
/// which is called *osc bundle*.
#[derive(Debug, PartialEq)]
pub enum OscPacket {
    Message(OscMessage),
    Bundle(OscBundle),
}

/// An address and its arguments; `None` and an empty list travel alike.
#[derive(Debug, PartialEq)]
pub struct OscMessage {
    pub addr: String,
    pub args: Option<Vec<OscType>>,
}

/// A time tag and the packets it frames.
#[derive(Debug, PartialEq)]
pub struct OscBundle {
    pub timetag: OscType,
    pub content: Vec<OscPacket>,
}

/// Why encoding or decoding failed.
#[derive(Debug, PartialEq)]
pub enum OscError {
    MalformedPacket(String),
    UnterminatedString,
    InvalidUtf8,
    TruncatedValue(usize, usize),
    UnsupportedTypeTag(char),
    BundleMissingTimeTag,
    NegativeOrOverflowingLength,
}

pub type Result<T> = core::result::Result<T, OscError>;

/// Mathematical model of an argument value.
pub enum ArgModel {
    Int(i32),
    Float(u32),
    Str(Seq<char>),
    Blob(Seq<u8>),
    Time(u32, u32),
    Long(i64),
    Double(u64),
    Char(char),
    Color(u8, u8, u8, u8),
    Midi(u8, u8, u8, u8),
    Bool(bool),
    Nil,
    Inf,
    Array(Seq<ArgModel>),
}

/// Mathematical model of a packet.
pub enum PacketModel {
    Message(Seq<char>, Option<Seq<ArgModel>>),
    Bundle(ArgModel, Seq<PacketModel>),
}

pub open spec fn arg_view(a: OscType) -> ArgModel
    decreases a,
{
    match a {
        OscType::Int(x) => ArgModel::Int(x),
        OscType::Float(x) => ArgModel::Float(x),
        OscType::String(s) => ArgModel::Str(s@),
        OscType::Blob(b) => ArgModel::Blob(b@),
        OscType::Time(s, f) => ArgModel::Time(s, f),
        OscType::Long(x) => ArgModel::Long(x),
        OscType::Double(x) => ArgModel::Double(x),
        OscType::Char(c) => ArgModel::Char(c),
        OscType::Color(c) => ArgModel::Color(c.red, c.green, c.blue, c.alpha),
        OscType::Midi(m) => ArgModel::Midi(m.port, m.status, m.data1, m.data2),
        OscType::Bool(b) => ArgModel::Bool(b),
        OscType::Nil => ArgModel::Nil,
        OscType::Inf => ArgModel::Inf,
        OscType::Array(v) => ArgModel::Array(
            Seq::new(v@.len(), |i: int| if 0 <= i < v@.len() { arg_view(v[i]) } else { ArgModel::Nil }),
        ),
    }
}

pub open spec fn args_view(v: Seq<OscType>) -> Seq<ArgModel> {
    Seq::new(v.len(), |i: int| arg_view(v[i]))
}

pub open spec fn packet_view(p: OscPacket) -> PacketModel
    decreases p,
{
    match p {
        OscPacket::Message(m) => PacketModel::Message(
            m.addr@,
            match m.args {
                Some(v) => Some(args_view(v@)),
                None => None,
            },
        ),
        OscPacket::Bundle(b) => PacketModel::Bundle(
            arg_view(b.timetag),
            Seq::new(b.content@.len(), |i: int|
                if 0 <= i < b.content@.len() {
                    packet_view(b.content[i])
                } else {
                    PacketModel::Message(Seq::empty(), None)
                },
            ),
        ),
    }
}

impl View for OscType {
    type V = ArgModel;

    open spec fn view(&self) -> ArgModel {
        arg_view(*self)
    }
}

impl View for OscPacket {
    type V = PacketModel;

    open spec fn view(&self) -> PacketModel {
        packet_view(*self)
    }
}

} // verus!
