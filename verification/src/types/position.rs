//! Positions and their fixed-size records.
use super::events::InvalidTag;
use vstd::prelude::*;

verus! {

/// A signed holding with its average entry price.
#[derive(Copy, Clone, Debug, PartialEq, Eq, Structural)]
pub enum Position {
    Flat,
    Long { qty: u64, avg_price: u64 },
    Short { qty: u64, avg_price: u64 },
}

/// A position as a fixed-size tagged record.
#[derive(Copy, Clone, Debug, PartialEq)]
pub struct PodPosition {
    pub tag: u8,
    pub _pad: [u8; 7],
    pub qty: u64,
    pub avg_price: u64,
}

impl PodPosition {
    /// The record is the one written for `position`.
    pub open spec fn encodes(self, position: Position) -> bool {
        &&& forall|i: int| 0 <= i < 7 ==> #[trigger] self._pad@[i] == 0
        &&& match position {
            Position::Flat => self.tag == 0 && self.qty == 0 && self.avg_price == 0,
            Position::Long { qty, avg_price } => {
                self.tag == 1 && self.qty == qty && self.avg_price == avg_price
            },
            Position::Short { qty, avg_price } => {
                self.tag == 2 && self.qty == qty && self.avg_price == avg_price
            },
        }
    }
}

impl vstd::std_specs::convert::FromSpecImpl<Position> for PodPosition {
    open spec fn obeys_from_spec() -> bool {
        true
    }

    open spec fn from_spec(position: Position) -> PodPosition {
        choose|pod: PodPosition| pod.encodes(position)
    }
}

impl From<Position> for PodPosition {
    /// The record of `position`.
    fn from(position: Position) -> (pod: PodPosition)
        ensures
            pod.encodes(position),
    {
        let pod = match position {
            Position::Flat => PodPosition { tag: 0, _pad: [0u8; 7], qty: 0, avg_price: 0 },
            Position::Long { qty, avg_price } => PodPosition {
                tag: 1,
                _pad: [0u8; 7],
                qty,
                avg_price,
            },
            Position::Short { qty, avg_price } => PodPosition {
                tag: 2,
                _pad: [0u8; 7],
                qty,
                avg_price,
            },
        };
        proof {
            assert(pod.encodes(position));
            let chosen = choose|pod: PodPosition| pod.encodes(position);
            assert(pod._pad =~= chosen._pad);
        }
        pod
    }
}

impl vstd::std_specs::convert::TryFromSpecImpl<PodPosition> for Position {
    open spec fn obeys_try_from_spec() -> bool {
        true
    }

    open spec fn try_from_spec(pod: PodPosition) -> Result<Position, InvalidTag> {
        if pod.tag == 0 {
            Ok(Position::Flat)
        } else if pod.tag == 1 {
            Ok(Position::Long { qty: pod.qty, avg_price: pod.avg_price })
        } else if pod.tag == 2 {
            Ok(Position::Short { qty: pod.qty, avg_price: pod.avg_price })
        } else {
            Err(InvalidTag(pod.tag))
        }
    }
}

impl TryFrom<PodPosition> for Position {
    type Error = InvalidTag;

    /// The position that the record holds; an unknown tag is an error.
    fn try_from(pod: PodPosition) -> (r: Result<Position, InvalidTag>) {
        match pod.tag {
            0 => Ok(Position::Flat),
            1 => Ok(Position::Long { qty: pod.qty, avg_price: pod.avg_price }),
            2 => Ok(Position::Short { qty: pod.qty, avg_price: pod.avg_price }),
            other => Err(InvalidTag(other)),
        }
    }
}

/// Reading back the record written for a position gives the position.
pub proof fn law_position_round_trip(pod: PodPosition, position: Position)
    requires
        pod.encodes(position),
    ensures
        <Position as vstd::std_specs::convert::TryFromSpec<PodPosition>>::try_from_spec(pod) == Ok::<
            Position,
            InvalidTag,
        >(position),
{
}

/// The record of a position tells flat, long and short apart by its tag and carries
/// quantity and price as they are; a flat position has neither. Any other tag is
/// refused by its number.
pub proof fn law_position_record_is_exact(pod: PodPosition, position: Position)
    ensures
        pod.encodes(position) ==> {
            &&& position is Flat <==> pod.tag == 0
            &&& position is Long <==> pod.tag == 1
            &&& position is Short <==> pod.tag == 2
            &&& position is Flat ==> pod.qty == 0 && pod.avg_price == 0
            &&& position is Long ==> pod.qty == position->Long_qty && pod.avg_price
                == position->Long_avg_price
            &&& position is Short ==> pod.qty == position->Short_qty && pod.avg_price
                == position->Short_avg_price
        },
        pod.tag > 2 ==> <Position as vstd::std_specs::convert::TryFromSpec<
            PodPosition,
        >>::try_from_spec(pod) == Err::<Position, InvalidTag>(InvalidTag(pod.tag)),
        pod.tag <= 2 ==> <Position as vstd::std_specs::convert::TryFromSpec<
            PodPosition,
        >>::try_from_spec(pod) is Ok,
{
}

} // verus!
