//! Rooms: a fixed 11-byte header followed by a chain of variable-length
//! state conditions. The condition code fixes the payload width (none,
//! one byte, or two), and the chain ends at a terminator code whose
//! "state address" is synthesized as the byte position just past it —
//! where the default state record begins.
use vstd::prelude::*;

use crate::le16_at;
use crate::ParseError;

verus! {

/// A room header and its state-condition chain.
#[derive(Debug, PartialEq)]
pub struct Room {
    pub index: u8,
    pub area: u8,
    pub map_position: (u8, u8),
    pub width: u8,
    pub height: u8,
    pub up_scroller: u8,
    pub down_scroller: u8,
    pub cre_bitset: u8,
    /// Pointer to the room's door list within its bank.
    pub doors: u16,
    /// The chain in decode order: the terminator first, then the stored
    /// conditions from the last read back to the first.
    pub state_conditions: Vec<StateCondition>,
}

/// One entry of a state-condition chain.
#[derive(Debug, Default, Clone, Copy, PartialEq, Eq)]
pub struct StateCondition {
    pub condition: u16,
    pub parameter: Option<u16>,
    pub state_address: u16,
}

/// Parse the chain standing at in-bank address `addr`. The result lists
/// the terminator first and then the stored conditions from last to
/// first. `None` is a malformed chain: bytes run out before the
/// terminator, or the running address leaves its 16-bit bank.
pub open spec fn state_conditions_spec(addr: int, s: Seq<u8>) -> Option<Seq<StateCondition>>
    decreases s.len(),
{
    if s.len() < 2 {
        None
    } else {
        let c = le16_at(s, 0);
        if c == 0xE5E6 {
            if addr + 2 > 0xFFFF {
                None
            } else {
                Some(
                    seq![
                        StateCondition {
                            condition: 0xE5E6,
                            parameter: None,
                            state_address: (addr + 2) as u16,
                        },
                    ],
                )
            }
        } else if c == 0xE5EB {
            if s.len() < 6 || addr + 6 > 0xFFFF {
                None
            } else {
                match state_conditions_spec(addr + 6, s.skip(6)) {
                    Option::Some(rest) => Some(
                        rest.push(
                            StateCondition {
                                condition: 0xE5EB,
                                parameter: Some(le16_at(s, 2) as u16),
                                state_address: le16_at(s, 4) as u16,
                            },
                        ),
                    ),
                    Option::None => None,
                }
            }
        } else if c == 0xE612 || c == 0xE629 {
            if s.len() < 5 || addr + 5 > 0xFFFF {
                None
            } else {
                match state_conditions_spec(addr + 5, s.skip(5)) {
                    Option::Some(rest) => Some(
                        rest.push(
                            StateCondition {
                                condition: c as u16,
                                parameter: Some(s[2] as u16),
                                state_address: le16_at(s, 3) as u16,
                            },
                        ),
                    ),
                    Option::None => None,
                }
            }
        } else {
            if s.len() < 4 || addr + 4 > 0xFFFF {
                None
            } else {
                match state_conditions_spec(addr + 4, s.skip(4)) {
                    Option::Some(rest) => Some(
                        rest.push(
                            StateCondition {
                                condition: c as u16,
                                parameter: None,
                                state_address: le16_at(s, 2) as u16,
                            },
                        ),
                    ),
                    Option::None => None,
                }
            }
        }
    }
}

/// Parse a state-condition chain with an explicit cursor loop.
#[verifier::rlimit(100)]
pub fn state_conditions_from_bytes(default_state_address: u16, source: &[u8]) -> (r: Result<
    Vec<StateCondition>,
    ParseError,
>)
    ensures
        r is Ok <==> state_conditions_spec(default_state_address as int, source@) is Some,
        r matches Ok(v) ==> state_conditions_spec(default_state_address as int, source@)
            == Some(v@),
{
    let len = source.len();
    let mut off: usize = 0;
    let mut cur: usize = default_state_address as usize;
    let mut walked: Vec<StateCondition> = Vec::new();
    let ghost mut acc: Seq<StateCondition> = Seq::empty();
    let terminator: StateCondition;
    proof {
        assert(source@.skip(0) =~= source@);
        assert(forall|rest: Seq<StateCondition>| rest + acc =~= rest);
    }
    loop
        invariant
            off <= len,
            len == source@.len(),
            cur <= 0xFFFF,
            walked@.len() == acc.len(),
            forall|i: int|
                0 <= i < acc.len() ==> #[trigger] acc[i] == walked@[acc.len() - 1 - i],
            state_conditions_spec(default_state_address as int, source@) == (match
                state_conditions_spec(cur as int, source@.skip(off as int)) {
                Option::Some(rest) => Option::Some(rest + acc),
                Option::None => Option::<Seq<StateCondition>>::None,
            }),
        ensures
            off <= len,
            len == source@.len(),
            walked@.len() == acc.len(),
            forall|i: int|
                0 <= i < acc.len() ==> #[trigger] acc[i] == walked@[acc.len() - 1 - i],
            state_conditions_spec(default_state_address as int, source@) matches Some(full)
                && full == seq![terminator] + acc,
        decreases len - off,
    {
        let ghost s = source@.skip(off as int);
        if len - off < 2 {
            proof {
                assert(s.len() < 2);
            }
            return Err(ParseError);
        }
        let c = crate::read_le16(source, off);
        proof {
            assert(s[0] == source@[off as int] && s[1] == source@[off as int + 1]);
            assert(le16_at(s, 0) == le16_at(source@, off as int));
        }
        if c == 0xE5E6 {
            if cur + 2 > 0xFFFF {
                return Err(ParseError);
            }
            terminator = StateCondition {
                condition: 0xE5E6,
                parameter: None,
                state_address: (cur + 2) as u16,
            };
            proof {
                assert(state_conditions_spec(cur as int, s) == Some(seq![terminator]));
            }
            break ;
        }
        let entry: StateCondition;
        let width: usize;
        if c == 0xE5EB {
            if len - off < 6 || cur + 6 > 0xFFFF {
                proof {
                    assert(s.len() < 6 || cur + 6 > 0xFFFF);
                }
                return Err(ParseError);
            }
            entry = StateCondition {
                condition: 0xE5EB,
                parameter: Some(crate::read_le16(source, off + 2)),
                state_address: crate::read_le16(source, off + 4),
            };
            width = 6;
            proof {
                assert(s[2] == source@[off as int + 2] && s[3] == source@[off as int + 3] && s[4]
                    == source@[off as int + 4] && s[5] == source@[off as int + 5]);
                assert(le16_at(s, 2) == le16_at(source@, off as int + 2) && le16_at(s, 4)
                    == le16_at(source@, off as int + 4));
            }
        } else if c == 0xE612 || c == 0xE629 {
            if len - off < 5 || cur + 5 > 0xFFFF {
                proof {
                    assert(s.len() < 5 || cur + 5 > 0xFFFF);
                }
                return Err(ParseError);
            }
            entry = StateCondition {
                condition: c,
                parameter: Some(source[off + 2] as u16),
                state_address: crate::read_le16(source, off + 3),
            };
            width = 5;
            proof {
                assert(s[2] == source@[off as int + 2] && s[3] == source@[off as int + 3] && s[4]
                    == source@[off as int + 4]);
                assert(le16_at(s, 3) == le16_at(source@, off as int + 3));
            }
        } else {
            if len - off < 4 || cur + 4 > 0xFFFF {
                proof {
                    assert(s.len() < 4 || cur + 4 > 0xFFFF);
                }
                return Err(ParseError);
            }
            entry = StateCondition {
                condition: c,
                parameter: None,
                state_address: crate::read_le16(source, off + 2),
            };
            width = 4;
            proof {
                assert(s[2] == source@[off as int + 2] && s[3] == source@[off as int + 3]);
                assert(le16_at(s, 2) == le16_at(source@, off as int + 2));
            }
        }
        proof {
            assert(s.skip(width as int) =~= source@.skip(off as int + width as int));
            assert(state_conditions_spec(cur as int, s) == (match state_conditions_spec(
                cur as int + width as int,
                s.skip(width as int),
            ) {
                Option::Some(rest) => Option::Some(rest.push(entry)),
                Option::None => Option::<Seq<StateCondition>>::None,
            }));
            assert forall|rest: Seq<StateCondition>|
                #[trigger] (rest.push(entry) + acc) == rest + (seq![entry] + acc) by {
                assert(rest.push(entry) + acc =~= rest + (seq![entry] + acc));
            }
        }
        walked.push(entry);
        proof {
            acc = seq![entry] + acc;
        }
        off = off + width;
        cur = cur + width;
    }
    // Rebuild in chain order: the terminator, then the walked entries
    // from the last back to the first.
    let n = walked.len();
    let mut output: Vec<StateCondition> = Vec::new();
    output.push(terminator);
    let mut k: usize = 0;
    while k < n
        invariant
            k <= n,
            n == walked@.len(),
            n == acc.len(),
            forall|i: int|
                0 <= i < acc.len() ==> #[trigger] acc[i] == walked@[acc.len() - 1 - i],
            output@.len() == 1 + k,
            output@[0] == terminator,
            forall|i: int| 0 <= i < k ==> #[trigger] acc[i] == output@[1 + i],
        decreases n - k,
    {
        output.push(walked[n - 1 - k]);
        k += 1;
    }
    proof {
        assert(output@ =~= seq![terminator] + acc);
    }
    Ok(output)
}

/// Decode a room: the fixed header, then the condition chain standing
/// just past it at `room_address + 11`.
pub fn from_bytes(room_address: u16, source: &[u8]) -> (r: Result<Room, ParseError>)
    ensures
        r is Ok <==> source@.len() >= 11 && room_address + 11 <= 0xFFFF && state_conditions_spec(
            room_address + 11,
            source@.skip(11),
        ) is Some,
        r matches Ok(room) ==> {
            &&& room.index == source@[0]
            &&& room.area == source@[1]
            &&& room.map_position.0 == source@[2]
            &&& room.map_position.1 == source@[3]
            &&& room.width == source@[4]
            &&& room.height == source@[5]
            &&& room.up_scroller == source@[6]
            &&& room.down_scroller == source@[7]
            &&& room.cre_bitset == source@[8]
            &&& room.doors == le16_at(source@, 9)
            &&& state_conditions_spec(room_address + 11, source@.skip(11)) == Some(
                room.state_conditions@,
            )
        },
{
    let len = source.len();
    if len < 11 {
        return Err(ParseError);
    }
    if room_address as usize + 11 > 0xFFFF {
        return Err(ParseError);
    }
    let chain_slice = vstd::slice::slice_subrange(source, 11, len);
    proof {
        assert(chain_slice@ =~= source@.skip(11));
    }
    let state_conditions = match state_conditions_from_bytes(room_address + 11, chain_slice) {
        Ok(cs) => cs,
        Err(e) => {
            return Err(e);
        },
    };
    Ok(
        Room {
            index: source[0],
            area: source[1],
            map_position: (source[2], source[3]),
            width: source[4],
            height: source[5],
            up_scroller: source[6],
            down_scroller: source[7],
            cre_bitset: source[8],
            doors: crate::read_le16(source, 9),
            state_conditions,
        },
    )
}

/// The bytes one condition writes back: the code, a payload whose width
/// the code fixes, and — except for the terminator — the state address.
pub open spec fn state_condition_bytes(sc: StateCondition) -> Seq<u8> {
    let cond = seq![(sc.condition % 256) as u8, (sc.condition / 256) as u8];
    if sc.condition == 0xE5E6 {
        cond
    } else {
        let param = if sc.condition == 0xE5EB {
            match sc.parameter {
                Option::Some(p) => seq![(p % 256) as u8, (p / 256) as u8],
                Option::None => Seq::<u8>::empty(),
            }
        } else if sc.condition == 0xE612 || sc.condition == 0xE629 {
            match sc.parameter {
                Option::Some(p) => seq![(p % 256) as u8],
                Option::None => Seq::<u8>::empty(),
            }
        } else {
            Seq::<u8>::empty()
        };
        cond + param + seq![(sc.state_address % 256) as u8, (sc.state_address / 256) as u8]
    }
}

impl StateCondition {
    /// Pack one condition back to bytes.
    pub fn to_bytes(&self) -> (r: Vec<u8>)
        ensures
            r@ == state_condition_bytes(*self),
    {
        let mut output: Vec<u8> = Vec::new();
        output.push((self.condition % 256) as u8);
        output.push((self.condition / 256) as u8);
        if self.condition == 0xE5E6 {
            proof {
                assert(output@ =~= state_condition_bytes(*self));
            }
            return output;
        }
        if let Some(parameter) = self.parameter {
            if self.condition == 0xE5EB {
                output.push((parameter % 256) as u8);
                output.push((parameter / 256) as u8);
            } else if self.condition == 0xE612 || self.condition == 0xE629 {
                output.push((parameter % 256) as u8);
            }
        }
        output.push((self.state_address % 256) as u8);
        output.push((self.state_address / 256) as u8);
        proof {
            assert(output@ =~= state_condition_bytes(*self));
        }
        output
    }
}

/// The bytes a whole chain writes back: each condition's bytes, from
/// the last entry of the vector back to the first, so that the stored
/// conditions regain their stream order with the terminator at the end.
pub open spec fn chain_bytes(cs: Seq<StateCondition>) -> Seq<u8>
    decreases cs.len(),
{
    if cs.len() == 0 {
        Seq::<u8>::empty()
    } else {
        state_condition_bytes(cs.last()) + chain_bytes(cs.drop_last())
    }
}

/// The 11 header bytes of a room.
pub open spec fn room_header_bytes(room: Room) -> Seq<u8> {
    seq![
        room.index,
        room.area,
        room.map_position.0,
        room.map_position.1,
        room.width,
        room.height,
        room.up_scroller,
        room.down_scroller,
        room.cre_bitset,
        (room.doors % 256) as u8,
        (room.doors / 256) as u8,
    ]
}

impl Room {
    /// The room's size in screens.
    pub fn size(&self) -> (r: (usize, usize))
        ensures
            r.0 == self.width && r.1 == self.height,
    {
        (self.width as usize, self.height as usize)
    }

    /// The room's size in 16x16 blocks.
    pub fn size_in_blocks(&self) -> (r: (usize, usize))
        ensures
            r.0 == 16 * self.width && r.1 == 16 * self.height,
    {
        (
            crate::level_data::BLOCKS_PER_SCREEN * self.width as usize,
            crate::level_data::BLOCKS_PER_SCREEN * self.height as usize,
        )
    }

    /// The room's size in pixels.
    pub fn size_in_pixels(&self) -> (r: (usize, usize))
        ensures
            r.0 == 256 * self.width && r.1 == 256 * self.height,
    {
        (
            crate::level_data::BLOCKS_PER_SCREEN * crate::gfx::TILE_SIZE * 2 * self.width as usize,
            crate::level_data::BLOCKS_PER_SCREEN * crate::gfx::TILE_SIZE * 2
                * self.height as usize,
        )
    }

    /// Pack the room back to bytes: the header, then the chain from its
    /// last entry back to the terminator.
    pub fn to_bytes(&self) -> (r: Vec<u8>)
        ensures
            r@ == room_header_bytes(*self) + chain_bytes(self.state_conditions@),
    {
        let mut output: Vec<u8> = Vec::new();
        output.push(self.index);
        output.push(self.area);
        output.push(self.map_position.0);
        output.push(self.map_position.1);
        output.push(self.width);
        output.push(self.height);
        output.push(self.up_scroller);
        output.push(self.down_scroller);
        output.push(self.cre_bitset);
        output.push((self.doors % 256) as u8);
        output.push((self.doors / 256) as u8);
        proof {
            assert(output@ =~= room_header_bytes(*self));
        }
        let n = self.state_conditions.len();
        proof {
            assert(self.state_conditions@.take(n as int) =~= self.state_conditions@);
        }
        let mut k: usize = 0;
        while k < n
            invariant
                k <= n,
                n == self.state_conditions@.len(),
                output@ + chain_bytes(self.state_conditions@.take(n - k)) == room_header_bytes(
                    *self,
                ) + chain_bytes(self.state_conditions@),
            decreases n - k,
        {
            let mut b = self.state_conditions[n - 1 - k].to_bytes();
            proof {
                let cs = self.state_conditions@;
                assert(cs.take(n - k).last() == cs[n - 1 - k]);
                assert(cs.take(n - k).drop_last() =~= cs.take(n - k - 1));
                assert((output@ + b@) + chain_bytes(cs.take(n - k - 1)) =~= output@ + (b@
                    + chain_bytes(cs.take(n - k - 1))));
            }
            output.append(&mut b);
            k += 1;
        }
        proof {
            assert(self.state_conditions@.take(0) =~= Seq::<StateCondition>::empty());
            assert(output@ + Seq::<u8>::empty() =~= output@);
        }
        output
    }
}

} // verus!
