//! A tagged union: one selector byte (declaration order) followed by the
//! active variant's own encoding.  The absent marker is selector 0 and
//! carries no payload; its root is the zero chunk before the selector
//! mix-in.

use vstd::prelude::*;
use crate::de::DeserializeError;
use crate::merkleization::{
    mix_in_selector, MerkleizationError, Node, spec_mix_in_selector, spec_zero_chunk,
};
use crate::ser::SerializeError;
use crate::ssz::SimpleSerialize;

verus! {

/// A union value over two payload types: the absent marker (selector 0), a
/// first variant (selector 1), or a second variant (selector 2).
#[derive(Debug, PartialEq, Eq)]
pub enum Union<A: SimpleSerialize, B: SimpleSerialize> {
    Absent,
    First(A),
    Second(B),
}

/// The mathematical value of a union: its shape and the payload's view.
pub enum UnionValue<X, Y> {
    Absent,
    First(X),
    Second(Y),
}

impl<A: SimpleSerialize, B: SimpleSerialize> DeepView for Union<A, B> {
    type V = UnionValue<<A as DeepView>::V, <B as DeepView>::V>;

    open spec fn deep_view(&self) -> UnionValue<<A as DeepView>::V, <B as DeepView>::V> {
        match self {
            Union::Absent => UnionValue::Absent,
            Union::First(a) => UnionValue::First(a.deep_view()),
            Union::Second(b) => UnionValue::Second(b.deep_view()),
        }
    }
}

impl<A: SimpleSerialize, B: SimpleSerialize> SimpleSerialize for Union<A, B> {
    open spec fn spec_is_variable_size() -> bool {
        true
    }

    open spec fn spec_size_hint() -> int {
        0
    }

    open spec fn spec_valid(&self) -> bool {
        match self {
            Union::Absent => true,
            Union::First(a) => a.spec_valid(),
            Union::Second(b) => b.spec_valid(),
        }
    }

    open spec fn spec_encoding(&self) -> Seq<u8> {
        match self {
            Union::Absent => seq![0u8],
            Union::First(a) => seq![1u8] + a.spec_encoding(),
            Union::Second(b) => seq![2u8] + b.spec_encoding(),
        }
    }

    open spec fn spec_is_composite_type() -> bool {
        true
    }

    open spec fn spec_hash_tree_root(&self) -> Seq<u8> {
        match self {
            Union::Absent => spec_mix_in_selector(spec_zero_chunk(), 0),
            Union::First(a) => spec_mix_in_selector(a.spec_hash_tree_root(), 1),
            Union::Second(b) => spec_mix_in_selector(b.spec_hash_tree_root(), 2),
        }
    }

    open spec fn spec_root_in_bounds(&self) -> bool {
        match self {
            Union::Absent => true,
            Union::First(a) => a.spec_root_in_bounds(),
            Union::Second(b) => b.spec_root_in_bounds(),
        }
    }

    proof fn lemma_fixed_size(&self) {
    }

    proof fn lemma_encoding_injective(a: &Self, b: &Self) {
        let ea = a.spec_encoding();
        match (a, b) {
            (Union::Absent, Union::Absent) => {},
            (Union::First(x), Union::First(y)) => {
                assert(x.spec_encoding() =~= ea.drop_first());
                assert(y.spec_encoding() =~= ea.drop_first());
                A::lemma_encoding_injective(x, y);
            },
            (Union::Second(x), Union::Second(y)) => {
                assert(x.spec_encoding() =~= ea.drop_first());
                assert(y.spec_encoding() =~= ea.drop_first());
                B::lemma_encoding_injective(x, y);
            },
            _ => {
                assert(false) by {
                    assert(ea[0] == b.spec_encoding()[0]);
                }
            },
        }
    }

    fn is_variable_size() -> (r: bool) {
        true
    }

    fn size_hint() -> (r: usize) {
        0
    }

    fn try_size_hint() -> (r: Option<usize>) {
        Option::Some(0)
    }

    fn is_composite_type() -> (r: bool) {
        true
    }

    fn serialize(&self, buffer: &mut Vec<u8>) -> (r: Result<usize, SerializeError>) {
        match self {
            Union::Absent => {
                buffer.push(0u8);
                proof {
                    assert(buffer@ =~= old(buffer)@ + self.spec_encoding());
                }
                Ok(1)
            },
            Union::First(a) => {
                let mut tmp: Vec<u8> = Vec::new();
                let written = match a.serialize(&mut tmp) {
                    Ok(n) => n,
                    Err(err) => {
                        return Err(err);
                    },
                };
                buffer.push(1u8);
                buffer.append(&mut tmp);
                proof {
                    assert(buffer@ =~= old(buffer)@ + self.spec_encoding());
                    vstd::std_specs::vec::axiom_spec_len(buffer);
                }
                Ok(written + 1)
            },
            Union::Second(b) => {
                let mut tmp: Vec<u8> = Vec::new();
                let written = match b.serialize(&mut tmp) {
                    Ok(n) => n,
                    Err(err) => {
                        return Err(err);
                    },
                };
                buffer.push(2u8);
                buffer.append(&mut tmp);
                proof {
                    assert(buffer@ =~= old(buffer)@ + self.spec_encoding());
                    vstd::std_specs::vec::axiom_spec_len(buffer);
                }
                Ok(written + 1)
            },
        }
    }

    fn deserialize(encoding: &[u8]) -> (r: Result<Self, DeserializeError>)
        ensures
            encoding@.len() == 0 ==> r == Err::<Union<A, B>, DeserializeError>(
                DeserializeError::ExpectedFurtherInput { provided: 0, expected: 1 },
            ),
            encoding@.len() > 0 && encoding@[0] > 2 ==> r == Err::<Union<A, B>,
                DeserializeError,
            >(DeserializeError::InvalidByte(encoding@[0])),
    {
        let len = encoding.len();
        if len == 0 {
            proof {
                assert forall|u: Union<A, B>| u.spec_valid() implies u.spec_encoding()
                    != encoding@ by {
                    match u {
                        Union::Absent => {},
                        Union::First(_) => {},
                        Union::Second(_) => {},
                    }
                }
            }
            return Err(DeserializeError::ExpectedFurtherInput { provided: 0, expected: 1 });
        }
        let selector = *vstd::slice::slice_index_get(encoding, 0);
        if selector == 0 {
            if len != 1 {
                proof {
                    assert forall|u: Union<A, B>| u.spec_valid() implies u.spec_encoding()
                        != encoding@ by {
                        match u {
                            Union::Absent => {
                                assert(u.spec_encoding().len() == 1);
                            },
                            Union::First(_) => {
                                assert(u.spec_encoding()[0] == 1);
                            },
                            Union::Second(_) => {
                                assert(u.spec_encoding()[0] == 2);
                            },
                        }
                    }
                }
                return Err(DeserializeError::AdditionalInput { provided: len, expected: 1 });
            }
            let result: Union<A, B> = Union::Absent;
            proof {
                assert(result.spec_encoding() =~= encoding@);
            }
            Ok(result)
        } else if selector == 1 {
            let rest = vstd::slice::slice_subrange(encoding, 1, len);
            match A::deserialize(rest) {
                Ok(a) => {
                    let result = Union::First(a);
                    proof {
                        assert(result.spec_encoding() =~= encoding@);
                    }
                    Ok(result)
                },
                Err(err) => {
                    proof {
                        assert forall|u: Union<A, B>| u.spec_valid() implies u.spec_encoding()
                            != encoding@ by {
                            match u {
                                Union::Absent => {
                                    assert(u.spec_encoding()[0] == 0);
                                },
                                Union::First(x) => {
                                    if u.spec_encoding() == encoding@ {
                                        assert(x.spec_encoding() =~= rest@);
                                    }
                                },
                                Union::Second(_) => {
                                    assert(u.spec_encoding()[0] == 2);
                                },
                            }
                        }
                    }
                    Err(err)
                },
            }
        } else if selector == 2 {
            let rest = vstd::slice::slice_subrange(encoding, 1, len);
            match B::deserialize(rest) {
                Ok(b) => {
                    let result = Union::Second(b);
                    proof {
                        assert(result.spec_encoding() =~= encoding@);
                    }
                    Ok(result)
                },
                Err(err) => {
                    proof {
                        assert forall|u: Union<A, B>| u.spec_valid() implies u.spec_encoding()
                            != encoding@ by {
                            match u {
                                Union::Absent => {
                                    assert(u.spec_encoding()[0] == 0);
                                },
                                Union::First(_) => {
                                    assert(u.spec_encoding()[0] == 1);
                                },
                                Union::Second(x) => {
                                    if u.spec_encoding() == encoding@ {
                                        assert(x.spec_encoding() =~= rest@);
                                    }
                                },
                            }
                        }
                    }
                    Err(err)
                },
            }
        } else {
            proof {
                assert forall|u: Union<A, B>| u.spec_valid() implies u.spec_encoding()
                    != encoding@ by {
                    match u {
                        Union::Absent => {
                            assert(u.spec_encoding()[0] == 0);
                        },
                        Union::First(_) => {
                            assert(u.spec_encoding()[0] == 1);
                        },
                        Union::Second(_) => {
                            assert(u.spec_encoding()[0] == 2);
                        },
                    }
                }
            }
            Err(DeserializeError::InvalidByte(selector))
        }
    }

    fn hash_tree_root(&self) -> (r: Result<Node, MerkleizationError>) {
        match self {
            Union::Absent => {
                let zero = Node::zero();
                Ok(mix_in_selector(&zero, 0))
            },
            Union::First(a) => {
                match a.hash_tree_root() {
                    Ok(node) => Ok(mix_in_selector(&node, 1)),
                    Err(err) => Err(err),
                }
            },
            Union::Second(b) => {
                match b.hash_tree_root() {
                    Ok(node) => Ok(mix_in_selector(&node, 2)),
                    Err(err) => Err(err),
                }
            },
        }
    }
}

} // verus!
