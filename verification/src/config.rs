//! The player's settings and score, and their sixteen-byte encoding.

use vstd::prelude::*;

verus! {

/// Settings of the game and the cumulative score.
#[derive(Clone, Copy, Debug, PartialEq, Eq, Structural)]
pub struct ConfigData {
    /// The largest number of digits a single value of a puzzle may have.
    pub max_size: u32,
    /// The number of digits in a puzzle.
    pub x: u32,
    /// The cumulative score.
    pub score: i64,
}

/// The length of an encoded configuration.
pub const CONFIG_LENGTH: usize = 16;

/// The four bytes of `value`, the most significant first.
pub open spec fn be4(value: u32) -> Seq<u8> {
    seq![
        (value / 0x100_0000) as u8,
        (value / 0x1_0000 % 0x100) as u8,
        (value / 0x100 % 0x100) as u8,
        (value % 0x100) as u8,
    ]
}

/// The eight bytes of `value`, the most significant first.
pub open spec fn be8(value: u64) -> Seq<u8> {
    be4((value / 0x1_0000_0000) as u32) + be4((value % 0x1_0000_0000) as u32)
}

/// The number whose four bytes, the most significant first, are `bytes`.
pub open spec fn word4(bytes: Seq<u8>) -> int {
    ((bytes[0] * 0x100 + bytes[1]) * 0x100 + bytes[2]) * 0x100 + bytes[3]
}

/// The number whose eight bytes, the most significant first, are `bytes`.
pub open spec fn word8(bytes: Seq<u8>) -> int {
    word4(bytes.subrange(0, 4)) * 0x1_0000_0000 + word4(bytes.subrange(4, 8))
}

/// The bits of `score` in two's complement, as a number.
pub open spec fn bits_of(score: i64) -> u64 {
    if score < 0 {
        (score + 0x1_0000_0000_0000_0000) as u64
    } else {
        score as u64
    }
}

/// The score whose bits in two's complement are `bits`.
pub open spec fn score_of(bits: int) -> i64 {
    if bits >= 0x8000_0000_0000_0000 {
        (bits - 0x1_0000_0000_0000_0000) as i64
    } else {
        bits as i64
    }
}

impl ConfigData {
    /// The configuration of a player who has none yet.
    pub open spec fn initial() -> ConfigData {
        ConfigData { max_size: 2, x: 4, score: 0 }
    }

    /// The sixteen bytes of a configuration: `x`, `max_size` and `score`,
    /// each with its most significant byte first.
    pub open spec fn encoding(&self) -> Seq<u8> {
        be4(self.x) + be4(self.max_size) + be8(bits_of(self.score))
    }

    /// The configuration that `data` encodes; data of another length than
    /// sixteen bytes stands for the initial configuration.
    pub open spec fn decoding(data: Seq<u8>) -> ConfigData {
        if data.len() != CONFIG_LENGTH {
            ConfigData::initial()
        } else {
            ConfigData {
                x: word4(data.subrange(0, 4)) as u32,
                max_size: word4(data.subrange(4, 8)) as u32,
                score: score_of(word8(data.subrange(8, 16))),
            }
        }
    }

    /// Encodes the configuration.
    pub fn serialize(&self) -> (data: Vec<u8>)
        ensures
            data@ == self.encoding(),
            data.len() == CONFIG_LENGTH,
    {
        let mut data: Vec<u8> = Vec::new();
        push_be4(&mut data, self.x);
        push_be4(&mut data, self.max_size);
        let bits: u64 = if self.score < 0 {
            ((self.score + 1) + i64::MAX) as u64 + 0x8000_0000_0000_0000
        } else {
            self.score as u64
        };
        push_be4(&mut data, (bits / 0x1_0000_0000) as u32);
        push_be4(&mut data, (bits % 0x1_0000_0000) as u32);
        proof {
            assert(data@ =~= self.encoding());
        }
        data
    }

    /// Adds to the score what a solved puzzle is worth: its number of digits.
    pub fn award(&mut self)
        requires
            old(self).score + old(self).x <= i64::MAX,
        ensures
            final(self).score == old(self).score + old(self).x,
            final(self).x == old(self).x,
            final(self).max_size == old(self).max_size,
    {
        self.score = self.score + self.x as i64;
    }

    /// Decodes a configuration.
    pub fn deserialize(data: Vec<u8>) -> (config: ConfigData)
        ensures
            config == ConfigData::decoding(data@),
    {
        if data.len() != CONFIG_LENGTH {
            return ConfigData { max_size: 2, x: 4, score: 0 };
        }
        let x = read_be4(&data, 0);
        let max_size = read_be4(&data, 4);
        let high = read_be4(&data, 8);
        let low = read_be4(&data, 12);
        let bits: u64 = high as u64 * 0x1_0000_0000 + low as u64;
        proof {
            let field = data@.subrange(8, 16);
            assert(field.subrange(0, 4) =~= data@.subrange(8, 12));
            assert(field.subrange(4, 8) =~= data@.subrange(12, 16));
        }
        let score: i64 = if bits >= 0x8000_0000_0000_0000 {
            (bits - 0x8000_0000_0000_0000) as i64 + i64::MIN
        } else {
            bits as i64
        };
        ConfigData { max_size, x, score }
    }
}

impl Default for ConfigData {
    fn default() -> (config: ConfigData)
        ensures
            config == ConfigData::initial(),
    {
        ConfigData { max_size: 2, x: 4, score: 0 }
    }
}

/// Appends the four bytes of `value`, the most significant first.
fn push_be4(data: &mut Vec<u8>, value: u32)
    ensures
        final(data)@ == old(data)@ + be4(value),
{
    data.push((value / 0x100_0000) as u8);
    data.push((value / 0x1_0000 % 0x100) as u8);
    data.push((value / 0x100 % 0x100) as u8);
    data.push((value % 0x100) as u8);
    proof {
        assert(final(data)@ =~= old(data)@ + be4(value));
    }
}

/// The number whose four bytes, the most significant first, stand in `data`
/// from `start` on.
fn read_be4(data: &Vec<u8>, start: usize) -> (value: u32)
    requires
        start + 4 <= data.len(),
    ensures
        value == word4(data@.subrange(start as int, start + 4)),
{
    let b0 = data[start] as u32;
    let b1 = data[start + 1] as u32;
    let b2 = data[start + 2] as u32;
    let b3 = data[start + 3] as u32;
    ((b0 * 0x100 + b1) * 0x100 + b2) * 0x100 + b3
}

/// Four bytes that were made of a number give the number back.
pub proof fn lemma_word4_of_be4(value: u32)
    ensures
        word4(be4(value)) == value,
{
}

/// Eight bytes that were made of a number give the number back.
pub proof fn lemma_word8_of_be8(value: u64)
    ensures
        word8(be8(value)) == value,
{
    let high = (value / 0x1_0000_0000) as u32;
    let low = (value % 0x1_0000_0000) as u32;
    assert(be8(value).subrange(0, 4) =~= be4(high));
    assert(be8(value).subrange(4, 8) =~= be4(low));
    lemma_word4_of_be4(high);
    lemma_word4_of_be4(low);
}

/// What was encoded is decoded as it was.
pub proof fn lemma_decoding_of_encoding(config: ConfigData)
    ensures
        ConfigData::decoding(config.encoding()) == config,
{
    let data = config.encoding();
    assert(data.subrange(0, 4) =~= be4(config.x));
    assert(data.subrange(4, 8) =~= be4(config.max_size));
    assert(data.subrange(8, 16) =~= be8(bits_of(config.score)));
    lemma_word4_of_be4(config.x);
    lemma_word4_of_be4(config.max_size);
    lemma_word8_of_be8(bits_of(config.score));
}

} // verus!
