//! Replication of numbers, characters and text.

use vstd::prelude::*;
use vstd::utf8::{encode_utf8, is_scalar};

use crate::buffer::Buffer;
use crate::codec::{Codec, LosslessCodec};
use crate::endian::{
    law_little_endian_round_trip, lemma_byte_powers, lemma_little_endian,
    lemma_little_endian_value, little_endian, parse_little_endian, read_little_endian,
    write_little_endian,
};
use crate::error::Error;
use crate::leb::{
    law_signed_round_trip, law_unsigned_round_trip, lemma_parse_is_within, parse_signed,
    parse_unsigned, read_signed, read_unsigned, signed_bytes, unsigned_bytes, write_signed,
    write_unsigned,
};
use crate::number::{
    cut_to_pointer, pointer_sized, signed_pointer_sized, wrapped, wrapped_16, wrapped_32,
    wrapped_64, wrapped_8, wrapped_pointer,
};
use crate::primitive::{
    bool_byte, char_from_code, law_char_round_trip, law_string_round_trip,
    lemma_primitives_are_within, parse_bool, parse_char, parse_string, read_bool, read_char,
    read_string, string_bytes, write_bool, write_char, write_string,
};
use crate::replication::{DefaultReplicable, LosslessReplicable, Replicable};
use crate::wire::{Applied, Emitted, Parsed};

verus! {

impl Replicable for bool {
    type Model = bool;

    open spec fn model(self) -> bool {
        self
    }

    open spec fn emit(self) -> Emitted {
        Emitted::of(seq![bool_byte(self)])
    }

    open spec fn parse(prior: bool, bytes: Seq<u8>) -> Applied<bool> {
        Applied::replaced(prior, parse_bool(bytes))
    }

    proof fn parse_is_within(prior: bool, bytes: Seq<u8>) {
        lemma_primitives_are_within(bytes);
    }

    fn collect_changes(&self, buffer: &mut Buffer) -> (result: Result<(), Error>) {
        write_bool(buffer, *self);
        Ok(())
    }

    fn apply_changes(&mut self, buffer: &mut Buffer) -> (result: Result<(), Error>) {
        match read_bool(buffer) {
            Ok(value) => {
                *self = value;
                Ok(())
            },
            Err(error) => Err(error),
        }
    }
}

impl DefaultReplicable for bool {
    open spec fn blank() -> bool {
        false
    }

    proof fn default_is_blank(value: bool) {
    }
}

impl LosslessReplicable for bool {
    open spec fn fits(self) -> bool {
        true
    }

    proof fn law_round_trip(self, prior: bool, tail: Seq<u8>) {
    }
}

impl Replicable for u8 {
    type Model = u8;

    open spec fn model(self) -> u8 {
        self
    }

    open spec fn emit(self) -> Emitted {
        Emitted::of(unsigned_bytes(self as nat))
    }

    /// The number that seven bit groups stand for, in the size of the value.
    open spec fn parse(prior: u8, bytes: Seq<u8>) -> Applied<u8> {
        let number = parse_unsigned(bytes);
        match number.0 {
            Ok(value) => Applied { model: (value % 0x100) as u8, error: None, consumed: number.1 },
            Err(error) => Applied { model: prior, error: Some(error), consumed: number.1 },
        }
    }

    proof fn parse_is_within(prior: u8, bytes: Seq<u8>) {
        lemma_parse_is_within(bytes);
    }

    fn collect_changes(&self, buffer: &mut Buffer) -> (result: Result<(), Error>) {
        write_unsigned(buffer, *self as u64);
        Ok(())
    }

    fn apply_changes(&mut self, buffer: &mut Buffer) -> (result: Result<(), Error>) {
        match read_unsigned(buffer) {
            Ok(value) => {
                *self = (value % 0x100) as u8;
                Ok(())
            },
            Err(error) => Err(error),
        }
    }
}

impl DefaultReplicable for u8 {
    open spec fn blank() -> u8 {
        0
    }

    proof fn default_is_blank(value: u8) {
    }
}

impl LosslessReplicable for u8 {
    open spec fn fits(self) -> bool {
        true
    }

    proof fn law_round_trip(self, prior: u8, tail: Seq<u8>) {
        law_unsigned_round_trip(self as u64, tail);
    }
}

impl Replicable for u16 {
    type Model = u16;

    open spec fn model(self) -> u16 {
        self
    }

    open spec fn emit(self) -> Emitted {
        Emitted::of(unsigned_bytes(self as nat))
    }

    /// The number that seven bit groups stand for, in the size of the value.
    open spec fn parse(prior: u16, bytes: Seq<u8>) -> Applied<u16> {
        let number = parse_unsigned(bytes);
        match number.0 {
            Ok(value) => Applied { model: (value % 0x1_0000) as u16, error: None, consumed: number.1 },
            Err(error) => Applied { model: prior, error: Some(error), consumed: number.1 },
        }
    }

    proof fn parse_is_within(prior: u16, bytes: Seq<u8>) {
        lemma_parse_is_within(bytes);
    }

    fn collect_changes(&self, buffer: &mut Buffer) -> (result: Result<(), Error>) {
        write_unsigned(buffer, *self as u64);
        Ok(())
    }

    fn apply_changes(&mut self, buffer: &mut Buffer) -> (result: Result<(), Error>) {
        match read_unsigned(buffer) {
            Ok(value) => {
                *self = (value % 0x1_0000) as u16;
                Ok(())
            },
            Err(error) => Err(error),
        }
    }
}

impl DefaultReplicable for u16 {
    open spec fn blank() -> u16 {
        0
    }

    proof fn default_is_blank(value: u16) {
    }
}

impl LosslessReplicable for u16 {
    open spec fn fits(self) -> bool {
        true
    }

    proof fn law_round_trip(self, prior: u16, tail: Seq<u8>) {
        law_unsigned_round_trip(self as u64, tail);
    }
}

impl Replicable for u32 {
    type Model = u32;

    open spec fn model(self) -> u32 {
        self
    }

    open spec fn emit(self) -> Emitted {
        Emitted::of(unsigned_bytes(self as nat))
    }

    /// The number that seven bit groups stand for, in the size of the value.
    open spec fn parse(prior: u32, bytes: Seq<u8>) -> Applied<u32> {
        let number = parse_unsigned(bytes);
        match number.0 {
            Ok(value) => Applied { model: (value % 0x1_0000_0000) as u32, error: None, consumed: number.1 },
            Err(error) => Applied { model: prior, error: Some(error), consumed: number.1 },
        }
    }

    proof fn parse_is_within(prior: u32, bytes: Seq<u8>) {
        lemma_parse_is_within(bytes);
    }

    fn collect_changes(&self, buffer: &mut Buffer) -> (result: Result<(), Error>) {
        write_unsigned(buffer, *self as u64);
        Ok(())
    }

    fn apply_changes(&mut self, buffer: &mut Buffer) -> (result: Result<(), Error>) {
        match read_unsigned(buffer) {
            Ok(value) => {
                *self = (value % 0x1_0000_0000) as u32;
                Ok(())
            },
            Err(error) => Err(error),
        }
    }
}

impl DefaultReplicable for u32 {
    open spec fn blank() -> u32 {
        0
    }

    proof fn default_is_blank(value: u32) {
    }
}

impl LosslessReplicable for u32 {
    open spec fn fits(self) -> bool {
        true
    }

    proof fn law_round_trip(self, prior: u32, tail: Seq<u8>) {
        law_unsigned_round_trip(self as u64, tail);
    }
}

impl Replicable for u64 {
    type Model = u64;

    open spec fn model(self) -> u64 {
        self
    }

    open spec fn emit(self) -> Emitted {
        Emitted::of(unsigned_bytes(self as nat))
    }

    open spec fn parse(prior: u64, bytes: Seq<u8>) -> Applied<u64> {
        let number = parse_unsigned(bytes);
        match number.0 {
            Ok(value) => Applied { model: value, error: None, consumed: number.1 },
            Err(error) => Applied { model: prior, error: Some(error), consumed: number.1 },
        }
    }

    proof fn parse_is_within(prior: u64, bytes: Seq<u8>) {
        lemma_parse_is_within(bytes);
    }

    fn collect_changes(&self, buffer: &mut Buffer) -> (result: Result<(), Error>) {
        write_unsigned(buffer, *self);
        Ok(())
    }

    fn apply_changes(&mut self, buffer: &mut Buffer) -> (result: Result<(), Error>) {
        match read_unsigned(buffer) {
            Ok(value) => {
                *self = value;
                Ok(())
            },
            Err(error) => Err(error),
        }
    }
}

impl DefaultReplicable for u64 {
    open spec fn blank() -> u64 {
        0
    }

    proof fn default_is_blank(value: u64) {
    }
}

impl LosslessReplicable for u64 {
    open spec fn fits(self) -> bool {
        true
    }

    proof fn law_round_trip(self, prior: u64, tail: Seq<u8>) {
        law_unsigned_round_trip(self, tail);
    }
}

impl Replicable for u128 {
    type Model = u128;

    open spec fn model(self) -> u128 {
        self
    }

    open spec fn emit(self) -> Emitted {
        Emitted::of(unsigned_bytes((self % 0x1_0000_0000_0000_0000) as nat))
    }

    /// The number that seven bit groups stand for, in the size of the value.
    open spec fn parse(prior: u128, bytes: Seq<u8>) -> Applied<u128> {
        let number = parse_unsigned(bytes);
        match number.0 {
            Ok(value) => Applied { model: value as u128, error: None, consumed: number.1 },
            Err(error) => Applied { model: prior, error: Some(error), consumed: number.1 },
        }
    }

    proof fn parse_is_within(prior: u128, bytes: Seq<u8>) {
        lemma_parse_is_within(bytes);
    }

    fn collect_changes(&self, buffer: &mut Buffer) -> (result: Result<(), Error>) {
        write_unsigned(buffer, (*self % 0x1_0000_0000_0000_0000) as u64);
        Ok(())
    }

    fn apply_changes(&mut self, buffer: &mut Buffer) -> (result: Result<(), Error>) {
        match read_unsigned(buffer) {
            Ok(value) => {
                *self = value as u128;
                Ok(())
            },
            Err(error) => Err(error),
        }
    }
}

impl DefaultReplicable for u128 {
    open spec fn blank() -> u128 {
        0
    }

    proof fn default_is_blank(value: u128) {
    }
}

impl LosslessReplicable for u128 {
    open spec fn fits(self) -> bool {
        self <= u64::MAX
    }

    proof fn law_round_trip(self, prior: u128, tail: Seq<u8>) {
        law_unsigned_round_trip(self as u64, tail);
    }
}

impl Replicable for usize {
    type Model = usize;

    open spec fn model(self) -> usize {
        self
    }

    open spec fn emit(self) -> Emitted {
        Emitted::of(unsigned_bytes(self as nat))
    }

    /// The number that seven bit groups stand for, in the size of the value.
    open spec fn parse(prior: usize, bytes: Seq<u8>) -> Applied<usize> {
        let number = parse_unsigned(bytes);
        match number.0 {
            Ok(value) => Applied { model: pointer_sized(value), error: None, consumed: number.1 },
            Err(error) => Applied { model: prior, error: Some(error), consumed: number.1 },
        }
    }

    proof fn parse_is_within(prior: usize, bytes: Seq<u8>) {
        lemma_parse_is_within(bytes);
    }

    fn collect_changes(&self, buffer: &mut Buffer) -> (result: Result<(), Error>) {
        write_unsigned(buffer, *self as u64);
        Ok(())
    }

    fn apply_changes(&mut self, buffer: &mut Buffer) -> (result: Result<(), Error>) {
        match read_unsigned(buffer) {
            Ok(value) => {
                *self = cut_to_pointer(value);
                Ok(())
            },
            Err(error) => Err(error),
        }
    }
}

impl DefaultReplicable for usize {
    open spec fn blank() -> usize {
        0
    }

    proof fn default_is_blank(value: usize) {
    }
}

impl LosslessReplicable for usize {
    open spec fn fits(self) -> bool {
        true
    }

    proof fn law_round_trip(self, prior: usize, tail: Seq<u8>) {
        law_unsigned_round_trip(self as u64, tail);
    }
}

impl Replicable for i8 {
    type Model = i8;

    open spec fn model(self) -> i8 {
        self
    }

    open spec fn emit(self) -> Emitted {
        Emitted::of(signed_bytes(self as int))
    }

    /// The number that seven bit groups stand for, in the size of the value.
    open spec fn parse(prior: i8, bytes: Seq<u8>) -> Applied<i8> {
        let number = parse_signed(bytes);
        match number.0 {
            Ok(value) => Applied { model: wrapped(value as int, 0x100) as i8, error: None, consumed: number.1 },
            Err(error) => Applied { model: prior, error: Some(error), consumed: number.1 },
        }
    }

    proof fn parse_is_within(prior: i8, bytes: Seq<u8>) {
        lemma_parse_is_within(bytes);
    }

    fn collect_changes(&self, buffer: &mut Buffer) -> (result: Result<(), Error>) {
        write_signed(buffer, *self as i64);
        Ok(())
    }

    fn apply_changes(&mut self, buffer: &mut Buffer) -> (result: Result<(), Error>) {
        match read_signed(buffer) {
            Ok(value) => {
                *self = wrapped_8(value);
                Ok(())
            },
            Err(error) => Err(error),
        }
    }
}

impl DefaultReplicable for i8 {
    open spec fn blank() -> i8 {
        0
    }

    proof fn default_is_blank(value: i8) {
    }
}

impl LosslessReplicable for i8 {
    open spec fn fits(self) -> bool {
        true
    }

    proof fn law_round_trip(self, prior: i8, tail: Seq<u8>) {
        law_signed_round_trip(self as i64, tail);
    }
}

impl Replicable for i16 {
    type Model = i16;

    open spec fn model(self) -> i16 {
        self
    }

    open spec fn emit(self) -> Emitted {
        Emitted::of(signed_bytes(self as int))
    }

    /// The number that seven bit groups stand for, in the size of the value.
    open spec fn parse(prior: i16, bytes: Seq<u8>) -> Applied<i16> {
        let number = parse_signed(bytes);
        match number.0 {
            Ok(value) => Applied { model: wrapped(value as int, 0x1_0000) as i16, error: None, consumed: number.1 },
            Err(error) => Applied { model: prior, error: Some(error), consumed: number.1 },
        }
    }

    proof fn parse_is_within(prior: i16, bytes: Seq<u8>) {
        lemma_parse_is_within(bytes);
    }

    fn collect_changes(&self, buffer: &mut Buffer) -> (result: Result<(), Error>) {
        write_signed(buffer, *self as i64);
        Ok(())
    }

    fn apply_changes(&mut self, buffer: &mut Buffer) -> (result: Result<(), Error>) {
        match read_signed(buffer) {
            Ok(value) => {
                *self = wrapped_16(value);
                Ok(())
            },
            Err(error) => Err(error),
        }
    }
}

impl DefaultReplicable for i16 {
    open spec fn blank() -> i16 {
        0
    }

    proof fn default_is_blank(value: i16) {
    }
}

impl LosslessReplicable for i16 {
    open spec fn fits(self) -> bool {
        true
    }

    proof fn law_round_trip(self, prior: i16, tail: Seq<u8>) {
        law_signed_round_trip(self as i64, tail);
    }
}

impl Replicable for i32 {
    type Model = i32;

    open spec fn model(self) -> i32 {
        self
    }

    open spec fn emit(self) -> Emitted {
        Emitted::of(signed_bytes(self as int))
    }

    /// The number that seven bit groups stand for, in the size of the value.
    open spec fn parse(prior: i32, bytes: Seq<u8>) -> Applied<i32> {
        let number = parse_signed(bytes);
        match number.0 {
            Ok(value) => Applied { model: wrapped(value as int, 0x1_0000_0000) as i32, error: None, consumed: number.1 },
            Err(error) => Applied { model: prior, error: Some(error), consumed: number.1 },
        }
    }

    proof fn parse_is_within(prior: i32, bytes: Seq<u8>) {
        lemma_parse_is_within(bytes);
    }

    fn collect_changes(&self, buffer: &mut Buffer) -> (result: Result<(), Error>) {
        write_signed(buffer, *self as i64);
        Ok(())
    }

    fn apply_changes(&mut self, buffer: &mut Buffer) -> (result: Result<(), Error>) {
        match read_signed(buffer) {
            Ok(value) => {
                *self = wrapped_32(value);
                Ok(())
            },
            Err(error) => Err(error),
        }
    }
}

impl DefaultReplicable for i32 {
    open spec fn blank() -> i32 {
        0
    }

    proof fn default_is_blank(value: i32) {
    }
}

impl LosslessReplicable for i32 {
    open spec fn fits(self) -> bool {
        true
    }

    proof fn law_round_trip(self, prior: i32, tail: Seq<u8>) {
        law_signed_round_trip(self as i64, tail);
    }
}

impl Replicable for i64 {
    type Model = i64;

    open spec fn model(self) -> i64 {
        self
    }

    open spec fn emit(self) -> Emitted {
        Emitted::of(signed_bytes(self as int))
    }

    open spec fn parse(prior: i64, bytes: Seq<u8>) -> Applied<i64> {
        let number = parse_signed(bytes);
        match number.0 {
            Ok(value) => Applied { model: value, error: None, consumed: number.1 },
            Err(error) => Applied { model: prior, error: Some(error), consumed: number.1 },
        }
    }

    proof fn parse_is_within(prior: i64, bytes: Seq<u8>) {
        lemma_parse_is_within(bytes);
    }

    fn collect_changes(&self, buffer: &mut Buffer) -> (result: Result<(), Error>) {
        write_signed(buffer, *self);
        Ok(())
    }

    fn apply_changes(&mut self, buffer: &mut Buffer) -> (result: Result<(), Error>) {
        match read_signed(buffer) {
            Ok(value) => {
                *self = value;
                Ok(())
            },
            Err(error) => Err(error),
        }
    }
}

impl DefaultReplicable for i64 {
    open spec fn blank() -> i64 {
        0
    }

    proof fn default_is_blank(value: i64) {
    }
}

impl LosslessReplicable for i64 {
    open spec fn fits(self) -> bool {
        true
    }

    proof fn law_round_trip(self, prior: i64, tail: Seq<u8>) {
        law_signed_round_trip(self, tail);
    }
}

impl Replicable for i128 {
    type Model = i128;

    open spec fn model(self) -> i128 {
        self
    }

    open spec fn emit(self) -> Emitted {
        Emitted::of(signed_bytes(wrapped(self as int, 0x1_0000_0000_0000_0000)))
    }

    /// The number that seven bit groups stand for, in the size of the value.
    open spec fn parse(prior: i128, bytes: Seq<u8>) -> Applied<i128> {
        let number = parse_signed(bytes);
        match number.0 {
            Ok(value) => Applied { model: value as i128, error: None, consumed: number.1 },
            Err(error) => Applied { model: prior, error: Some(error), consumed: number.1 },
        }
    }

    proof fn parse_is_within(prior: i128, bytes: Seq<u8>) {
        lemma_parse_is_within(bytes);
    }

    fn collect_changes(&self, buffer: &mut Buffer) -> (result: Result<(), Error>) {
        write_signed(buffer, wrapped_64(*self));
        Ok(())
    }

    fn apply_changes(&mut self, buffer: &mut Buffer) -> (result: Result<(), Error>) {
        match read_signed(buffer) {
            Ok(value) => {
                *self = value as i128;
                Ok(())
            },
            Err(error) => Err(error),
        }
    }
}

impl DefaultReplicable for i128 {
    open spec fn blank() -> i128 {
        0
    }

    proof fn default_is_blank(value: i128) {
    }
}

impl LosslessReplicable for i128 {
    open spec fn fits(self) -> bool {
        i64::MIN <= self <= i64::MAX
    }

    proof fn law_round_trip(self, prior: i128, tail: Seq<u8>) {
        law_signed_round_trip(self as i64, tail);
    }
}

impl Replicable for isize {
    type Model = isize;

    open spec fn model(self) -> isize {
        self
    }

    open spec fn emit(self) -> Emitted {
        Emitted::of(signed_bytes(self as int))
    }

    /// The number that seven bit groups stand for, in the size of the value.
    open spec fn parse(prior: isize, bytes: Seq<u8>) -> Applied<isize> {
        let number = parse_signed(bytes);
        match number.0 {
            Ok(value) => Applied { model: signed_pointer_sized(value), error: None, consumed: number.1 },
            Err(error) => Applied { model: prior, error: Some(error), consumed: number.1 },
        }
    }

    proof fn parse_is_within(prior: isize, bytes: Seq<u8>) {
        lemma_parse_is_within(bytes);
    }

    fn collect_changes(&self, buffer: &mut Buffer) -> (result: Result<(), Error>) {
        write_signed(buffer, *self as i64);
        Ok(())
    }

    fn apply_changes(&mut self, buffer: &mut Buffer) -> (result: Result<(), Error>) {
        match read_signed(buffer) {
            Ok(value) => {
                *self = wrapped_pointer(value);
                Ok(())
            },
            Err(error) => Err(error),
        }
    }
}

impl DefaultReplicable for isize {
    open spec fn blank() -> isize {
        0
    }

    proof fn default_is_blank(value: isize) {
    }
}

impl LosslessReplicable for isize {
    open spec fn fits(self) -> bool {
        true
    }

    proof fn law_round_trip(self, prior: isize, tail: Seq<u8>) {
        law_signed_round_trip(self as i64, tail);
    }
}

impl Replicable for char {
    type Model = char;

    open spec fn model(self) -> char {
        self
    }

    open spec fn emit(self) -> Emitted {
        Emitted::of(little_endian(self as nat, 4))
    }

    open spec fn parse(prior: char, bytes: Seq<u8>) -> Applied<char> {
        Applied::replaced(prior, parse_char(bytes))
    }

    proof fn parse_is_within(prior: char, bytes: Seq<u8>) {
        lemma_primitives_are_within(bytes);
    }

    fn collect_changes(&self, buffer: &mut Buffer) -> (result: Result<(), Error>) {
        write_char(buffer, *self);
        Ok(())
    }

    fn apply_changes(&mut self, buffer: &mut Buffer) -> (result: Result<(), Error>) {
        match read_char(buffer) {
            Ok(value) => {
                *self = value;
                Ok(())
            },
            Err(error) => Err(error),
        }
    }
}

impl DefaultReplicable for char {
    open spec fn blank() -> char {
        '\0'
    }

    proof fn default_is_blank(value: char) {
    }
}

impl LosslessReplicable for char {
    open spec fn fits(self) -> bool {
        true
    }

    proof fn law_round_trip(self, prior: char, tail: Seq<u8>) {
        law_char_round_trip(self, tail);
        lemma_little_endian(self as nat, 4);
    }
}

impl Replicable for String {
    type Model = Seq<char>;

    open spec fn model(self) -> Seq<char> {
        self@
    }

    open spec fn emit(self) -> Emitted {
        Emitted::of(string_bytes(self@))
    }

    open spec fn parse(prior: Seq<char>, bytes: Seq<u8>) -> Applied<Seq<char>> {
        Applied::replaced(prior, parse_string(bytes))
    }

    proof fn parse_is_within(prior: Seq<char>, bytes: Seq<u8>) {
        lemma_primitives_are_within(bytes);
    }

    fn collect_changes(&self, buffer: &mut Buffer) -> (result: Result<(), Error>) {
        write_string(buffer, self.as_str());
        Ok(())
    }

    fn apply_changes(&mut self, buffer: &mut Buffer) -> (result: Result<(), Error>) {
        match read_string(buffer) {
            Ok(value) => {
                *self = value;
                Ok(())
            },
            Err(error) => Err(error),
        }
    }
}

impl DefaultReplicable for String {
    open spec fn blank() -> Seq<char> {
        Seq::empty()
    }

    proof fn default_is_blank(value: String) {
    }
}

impl LosslessReplicable for String {
    open spec fn fits(self) -> bool {
        encode_utf8(self@).len() <= u64::MAX
    }

    proof fn law_round_trip(self, prior: Seq<char>, tail: Seq<u8>) {
        law_string_round_trip(self@, tail);
    }
}

/// A floating point number of 32 bits, held as those bits.
#[derive(Debug, Clone, Copy, PartialEq, Eq, Hash, Structural)]
pub struct RepF32 {
    pub bits: u32,
}

impl RepF32 {
    pub fn from_bits(bits: u32) -> (result: Self)
        ensures
            result.bits == bits,
    {
        RepF32 { bits }
    }

    pub fn to_bits(&self) -> (result: u32)
        ensures
            result == self.bits,
    {
        self.bits
    }
}

impl Default for RepF32 {
    fn default() -> (result: Self)
        ensures
            result.bits == 0,
    {
        RepF32 { bits: 0 }
    }
}

impl Codec for RepF32 {
    type Value = RepF32;

    type Model = RepF32;

    open spec fn model(value: RepF32) -> RepF32 {
        value
    }

    /// The bits in 4 bytes, lowest first.
    open spec fn emit(value: RepF32) -> Emitted {
        Emitted::of(little_endian(value.bits as nat, 4))
    }

    open spec fn parse(bytes: Seq<u8>) -> Parsed<RepF32> {
        let number = parse_little_endian(bytes, 4);
        Parsed {
            result: match number.result {
                Ok(bits) => Ok(RepF32 { bits: bits as u32 }),
                Err(error) => Err(error),
            },
            consumed: number.consumed,
        }
    }

    proof fn parse_is_within(bytes: Seq<u8>) {
    }

    fn encode(message: &RepF32, buffer: &mut Buffer) -> (result: Result<(), Error>) {
        write_little_endian(buffer, message.bits as u128, 4);
        Ok(())
    }

    fn decode(buffer: &mut Buffer) -> (result: Result<RepF32, Error>) {
        proof {
            lemma_little_endian_value(buffer@.rest.take(4));
            lemma_byte_powers();
        }
        match read_little_endian(buffer, 4) {
            Ok(bits) => Ok(RepF32 { bits: bits as u32 }),
            Err(error) => Err(error),
        }
    }
}

impl LosslessCodec for RepF32 {
    open spec fn fits(value: RepF32) -> bool {
        true
    }

    proof fn law_round_trip(value: RepF32, tail: Seq<u8>) {
        lemma_byte_powers();
        lemma_little_endian(value.bits as nat, 4);
        law_little_endian_round_trip(value.bits as nat, 4, tail);
    }
}

impl Replicable for RepF32 {
    type Model = RepF32;

    open spec fn model(self) -> RepF32 {
        self
    }

    open spec fn emit(self) -> Emitted {
        Emitted::of(little_endian(self.bits as nat, 4))
    }

    open spec fn parse(prior: RepF32, bytes: Seq<u8>) -> Applied<RepF32> {
        Applied::replaced(prior, <RepF32 as Codec>::parse(bytes))
    }

    proof fn parse_is_within(prior: RepF32, bytes: Seq<u8>) {
        <RepF32 as Codec>::parse_is_within(bytes);
    }

    fn collect_changes(&self, buffer: &mut Buffer) -> (result: Result<(), Error>) {
        write_little_endian(buffer, self.bits as u128, 4);
        Ok(())
    }

    fn apply_changes(&mut self, buffer: &mut Buffer) -> (result: Result<(), Error>) {
        match <RepF32 as Codec>::decode(buffer) {
            Ok(value) => {
                *self = value;
                Ok(())
            },
            Err(error) => Err(error),
        }
    }
}

impl DefaultReplicable for RepF32 {
    open spec fn blank() -> RepF32 {
        RepF32 { bits: 0 }
    }

    proof fn default_is_blank(value: RepF32) {
    }
}

impl LosslessReplicable for RepF32 {
    open spec fn fits(self) -> bool {
        true
    }

    proof fn law_round_trip(self, prior: RepF32, tail: Seq<u8>) {
        <RepF32 as LosslessCodec>::law_round_trip(self, tail);
    }
}

/// A floating point number of 64 bits, held as those bits.
#[derive(Debug, Clone, Copy, PartialEq, Eq, Hash, Structural)]
pub struct RepF64 {
    pub bits: u64,
}

impl RepF64 {
    pub fn from_bits(bits: u64) -> (result: Self)
        ensures
            result.bits == bits,
    {
        RepF64 { bits }
    }

    pub fn to_bits(&self) -> (result: u64)
        ensures
            result == self.bits,
    {
        self.bits
    }
}

impl Default for RepF64 {
    fn default() -> (result: Self)
        ensures
            result.bits == 0,
    {
        RepF64 { bits: 0 }
    }
}

impl Codec for RepF64 {
    type Value = RepF64;

    type Model = RepF64;

    open spec fn model(value: RepF64) -> RepF64 {
        value
    }

    /// The bits in 8 bytes, lowest first.
    open spec fn emit(value: RepF64) -> Emitted {
        Emitted::of(little_endian(value.bits as nat, 8))
    }

    open spec fn parse(bytes: Seq<u8>) -> Parsed<RepF64> {
        let number = parse_little_endian(bytes, 8);
        Parsed {
            result: match number.result {
                Ok(bits) => Ok(RepF64 { bits: bits as u64 }),
                Err(error) => Err(error),
            },
            consumed: number.consumed,
        }
    }

    proof fn parse_is_within(bytes: Seq<u8>) {
    }

    fn encode(message: &RepF64, buffer: &mut Buffer) -> (result: Result<(), Error>) {
        write_little_endian(buffer, message.bits as u128, 8);
        Ok(())
    }

    fn decode(buffer: &mut Buffer) -> (result: Result<RepF64, Error>) {
        proof {
            lemma_little_endian_value(buffer@.rest.take(8));
            lemma_byte_powers();
        }
        match read_little_endian(buffer, 8) {
            Ok(bits) => Ok(RepF64 { bits: bits as u64 }),
            Err(error) => Err(error),
        }
    }
}

impl LosslessCodec for RepF64 {
    open spec fn fits(value: RepF64) -> bool {
        true
    }

    proof fn law_round_trip(value: RepF64, tail: Seq<u8>) {
        lemma_byte_powers();
        lemma_little_endian(value.bits as nat, 8);
        law_little_endian_round_trip(value.bits as nat, 8, tail);
    }
}

impl Replicable for RepF64 {
    type Model = RepF64;

    open spec fn model(self) -> RepF64 {
        self
    }

    open spec fn emit(self) -> Emitted {
        Emitted::of(little_endian(self.bits as nat, 8))
    }

    open spec fn parse(prior: RepF64, bytes: Seq<u8>) -> Applied<RepF64> {
        Applied::replaced(prior, <RepF64 as Codec>::parse(bytes))
    }

    proof fn parse_is_within(prior: RepF64, bytes: Seq<u8>) {
        <RepF64 as Codec>::parse_is_within(bytes);
    }

    fn collect_changes(&self, buffer: &mut Buffer) -> (result: Result<(), Error>) {
        write_little_endian(buffer, self.bits as u128, 8);
        Ok(())
    }

    fn apply_changes(&mut self, buffer: &mut Buffer) -> (result: Result<(), Error>) {
        match <RepF64 as Codec>::decode(buffer) {
            Ok(value) => {
                *self = value;
                Ok(())
            },
            Err(error) => Err(error),
        }
    }
}

impl DefaultReplicable for RepF64 {
    open spec fn blank() -> RepF64 {
        RepF64 { bits: 0 }
    }

    proof fn default_is_blank(value: RepF64) {
    }
}

impl LosslessReplicable for RepF64 {
    open spec fn fits(self) -> bool {
        true
    }

    proof fn law_round_trip(self, prior: RepF64, tail: Seq<u8>) {
        <RepF64 as LosslessCodec>::law_round_trip(self, tail);
    }
}

/// A character that is written in as few bytes as its code needs.
#[derive(Debug, Clone, Copy, PartialEq, Eq, Hash, Structural)]
pub struct RepChar(pub char);

impl Default for RepChar {
    fn default() -> (result: Self)
        ensures
            result.0 == '\0',
    {
        RepChar('\0')
    }
}

/// What reading a character in seven bit groups gives: the code, cut to 32 bits, has to be
/// that of a character.
pub open spec fn parse_short_char(bytes: Seq<u8>) -> Parsed<RepChar> {
    let number = parse_unsigned(bytes);
    Parsed {
        result: match number.0 {
            Ok(code) => if is_scalar((code % 0x1_0000_0000) as u32) {
                Ok(RepChar(((code % 0x1_0000_0000) as u32) as char))
            } else {
                Err(Error::InvalidChar)
            },
            Err(error) => Err(error),
        },
        consumed: number.1,
    }
}

impl Replicable for RepChar {
    type Model = RepChar;

    open spec fn model(self) -> RepChar {
        self
    }

    open spec fn emit(self) -> Emitted {
        Emitted::of(unsigned_bytes(self.0 as nat))
    }

    open spec fn parse(prior: RepChar, bytes: Seq<u8>) -> Applied<RepChar> {
        Applied::replaced(prior, parse_short_char(bytes))
    }

    proof fn parse_is_within(prior: RepChar, bytes: Seq<u8>) {
        lemma_parse_is_within(bytes);
    }

    fn collect_changes(&self, buffer: &mut Buffer) -> (result: Result<(), Error>) {
        write_unsigned(buffer, self.0 as u64);
        Ok(())
    }

    fn apply_changes(&mut self, buffer: &mut Buffer) -> (result: Result<(), Error>) {
        match read_unsigned(buffer) {
            Ok(code) => match char_from_code((code % 0x1_0000_0000) as u32) {
                Some(value) => {
                    self.0 = value;
                    Ok(())
                },
                None => Err(Error::InvalidChar),
            },
            Err(error) => Err(error),
        }
    }
}

impl DefaultReplicable for RepChar {
    open spec fn blank() -> RepChar {
        RepChar('\0')
    }

    proof fn default_is_blank(value: RepChar) {
    }
}

impl LosslessReplicable for RepChar {
    open spec fn fits(self) -> bool {
        true
    }

    proof fn law_round_trip(self, prior: RepChar, tail: Seq<u8>) {
        law_unsigned_round_trip(self.0 as u64, tail);
    }
}

/// Numbers are packed: those of up to seven bits take one byte, which is the number.
pub proof fn law_small_numbers_take_one_byte(number: u64, signed: i64)
    requires
        number < 128,
        0 <= signed < 64,
    ensures
        <u8 as Replicable>::emit(number as u8).bytes == seq![number as u8],
        <u16 as Replicable>::emit(number as u16).bytes == seq![number as u8],
        <u32 as Replicable>::emit(number as u32).bytes == seq![number as u8],
        <u64 as Replicable>::emit(number).bytes == seq![number as u8],
        <i8 as Replicable>::emit(signed as i8).bytes == seq![signed as u8],
        <i16 as Replicable>::emit(signed as i16).bytes == seq![signed as u8],
        <i32 as Replicable>::emit(signed as i32).bytes == seq![signed as u8],
        <i64 as Replicable>::emit(signed).bytes == seq![signed as u8],
{
    crate::leb::law_groups_of_seven_bits(number as nat, 0);
    crate::leb::law_signed_groups_of_seven_bits(signed as int, 0);
}

/// Larger numbers take as many bytes as groups of seven bits.
pub proof fn law_numbers_are_packed(number: u64, signed: i64)
    ensures
        number >= 128 ==> {
            let bytes = <u64 as Replicable>::emit(number).bytes;
            &&& bytes[0] >= 128
            &&& bytes[0] % 128 == number % 128
            &&& bytes.skip(1) == <u64 as Replicable>::emit((number / 128) as u64).bytes
        },
        signed >= 64 ==> {
            let bytes = <i64 as Replicable>::emit(signed).bytes;
            &&& bytes[0] >= 128
            &&& bytes[0] % 128 == signed % 128
            &&& bytes.skip(1) == <i64 as Replicable>::emit((signed / 128) as i64).bytes
        },
{
    crate::leb::law_groups_of_seven_bits(number as nat, 0);
    crate::leb::law_signed_groups_of_seven_bits(signed as int, 0);
}

/// A code that no character has is refused, once it is read whole: those between the two ranges
/// of characters, and those behind the last.
pub proof fn law_codes_of_no_character(code: u64, tail: Seq<u8>)
    requires
        0xD800 <= code <= 0xDFFF || 0x10_FFFF < code <= 0xFFFF_FFFF,
    ensures
        parse_short_char(unsigned_bytes(code as nat) + tail).result == Err::<RepChar, Error>(
            Error::InvalidChar,
        ),
        parse_short_char(unsigned_bytes(code as nat) + tail).consumed == unsigned_bytes(
            code as nat,
        ).len(),
{
    law_unsigned_round_trip(code, tail);
}

} // verus!
