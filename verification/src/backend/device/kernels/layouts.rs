//! What the kernels that decode raw formats read, against where each format keeps an
//! element of its block.

use vstd::prelude::*;

use crate::backend::device::kernels::{
    self, iq1m, iq1s, iq2s, iq2xs, iq2xxs, iq3s, iq3xxs, iq4xs, q2k, q3k, BYTE,
};
use crate::text;

verus! {

/// The text that reads a byte of a block.
pub open spec fn byte_text(at: nat) -> Seq<char> {
    text::filled(BYTE@, seq![text::decimal(at)])
}

/// The text that reads one half of a byte, by the format's own words for both.
pub open spec fn nibble_text(low: Seq<char>, high: Seq<char>, upper: bool, at: nat) -> Seq<char> {
    if upper {
        text::filled(high, seq![byte_text(at)])
    } else {
        text::filled(low, seq![byte_text(at)])
    }
}

/// Seven bits of a little-endian word, from one of its bits on: the byte they start
/// in, the bit within it, and whether they end in the next.
pub open spec fn sign_text(low: Seq<char>, high: Seq<char>, word: nat, bit: nat) -> Seq<char> {
    let (byte, shift) = (word + bit / 8, bit % 8);
    if bit == 0 {
        text::filled(low, seq![byte_text(byte)])
    } else {
        text::filled(
            high,
            seq![byte_text(byte), byte_text(byte + 1), text::decimal(kernels::raised(2, shift))],
        )
    }
}

/// The powers the kernels divide by.
proof fn lemma_powers()
    ensures
        kernels::raised(2, 0) == 1,
        kernels::raised(2, 1) == 2,
        kernels::raised(2, 2) == 4,
        kernels::raised(2, 3) == 8,
        kernels::raised(2, 4) == 16,
        kernels::raised(2, 5) == 32,
        kernels::raised(2, 6) == 64,
        kernels::raised(2, 7) == 128,
        kernels::raised(2, 9) == 512,
        kernels::raised(4, 0) == 1,
        kernels::raised(4, 1) == 4,
        kernels::raised(4, 2) == 16,
        kernels::raised(4, 3) == 64,
        kernels::raised(4, 4) == 256,
        kernels::raised(4, 5) == 1024,
        kernels::raised(4, 6) == 4096,
        kernels::raised(4, 7) == 16384,
        kernels::raised(8, 0) == 1,
        kernels::raised(8, 1) == 8,
        kernels::raised(8, 2) == 64,
        kernels::raised(8, 3) == 512,
        kernels::raised(16, 0) == 1,
        kernels::raised(16, 1) == 16,
{
    reveal_with_fuel(kernels::raised, 10);
}

/// Element `e` of a Q2_K block has its two bits in byte `16 + e / 128 * 32 + e % 32`, above
/// `e % 128 / 32` other pairs, and its run of sixteen the scale byte `e / 16`. Run `is` of
/// the kernels reads just these for its elements.
pub proof fn a_q2k_run_reads_its_elements(is: nat, l: nat)
    requires
        is < 16,
        l < 16,
    ensures
        ({
            let first = (16 * is) as nat;
            let e = (first + l) as nat;
            &&& q2k::geometry(is).0 + l == 16 + e / 128 * 32 + e % 32
            &&& q2k::geometry(is).1 == kernels::raised(4, e % 128 / 32)
            &&& is == e / 16
        }),
{
    lemma_powers();
}

/// The lines of that run in the kernels are what those numbers make of their words, at
/// the run's place in the block.
pub proof fn a_q2k_run_is_a_line_of_its_kernels(is: nat)
    requires
        is < 16,
    ensures
        ({
            let first = (16 * is) as nat;
            let decoded = text::filled(
                q2k::DECODED@,
                seq![
                    text::decimal(is),
                    byte_text(first / 16),
                    text::filled(
                        q2k::Q2@,
                        seq![
                            text::decimal(16 + first / 128 * 32 + first % 32),
                            text::decimal(16),
                            text::decimal(kernels::raised(4, first % 128 / 32)),
                        ],
                    ),
                ],
            );
            &&& q2k::matvec_lines(is + 1) == q2k::matvec_lines(is) + text::filled(
                q2k::MATVEC_LINE@,
                seq![decoded, text::decimal(is), text::decimal(first), text::decimal(16)],
            )
            &&& q2k::dequant_lines(is + 1) == q2k::dequant_lines(is) + text::filled(
                q2k::DEQUANT_LINE@,
                seq![decoded, text::decimal(first), text::decimal(16), text::decimal(is)],
            )
        }),
{
    lemma_powers();
    a_q2k_run_reads_its_elements(is, 0);
}

/// Element `e` of a Q3_K block has its low two bits in byte `32 + e / 128 * 32 + e % 32`,
/// above `e % 128 / 32` other pairs, and its high bit in byte `e % 32`, at bit `e / 32`. Its
/// run of sixteen, `r`, has four bits of its scale in byte `96 + r % 8`, in the upper half
/// from the eighth run on, and two in byte `104 + r % 4`, above `r / 4` other pairs.
pub proof fn a_q3k_run_reads_its_elements(is: nat, l: nat)
    requires
        is < 16,
        l < 16,
    ensures
        ({
            let first = (16 * is) as nat;
            let e = (first + l) as nat;
            &&& q3k::geometry(is).0 + l == 32 + e / 128 * 32 + e % 32
            &&& q3k::geometry(is).1 == kernels::raised(4, e % 128 / 32)
            &&& q3k::geometry(is).2 + l == e % 32
            &&& q3k::geometry(is).3 == kernels::raised(2, e / 32)
            &&& is == e / 16
            &&& q3k::geometry(is).4 == 96 + e / 16 % 8
            &&& q3k::geometry(is).5 == kernels::raised(16, e / 128)
            &&& q3k::geometry(is).6 == 104 + e / 16 % 4
            &&& q3k::geometry(is).7 == kernels::raised(4, e / 64)
        }),
{
    lemma_powers();
}

/// The lines of that run in the kernels are what those numbers make of their words, at
/// the run's place in the block.
pub proof fn a_q3k_run_is_a_line_of_its_kernels(is: nat)
    requires
        is < 16,
    ensures
        ({
            let first = (16 * is) as nat;
            let decoded = text::filled(
                q3k::DECODED@,
                seq![
                    text::decimal(is),
                    text::filled(
                        q3k::LO@,
                        seq![
                            text::decimal(96 + first / 16 % 8),
                            text::decimal(kernels::raised(16, first / 128)),
                        ],
                    ),
                    text::filled(
                        q3k::HI@,
                        seq![
                            text::decimal(104 + first / 16 % 4),
                            text::decimal(kernels::raised(4, first / 64)),
                        ],
                    ),
                    text::filled(
                        q3k::LOW2@,
                        seq![
                            text::decimal(32 + first / 128 * 32 + first % 32),
                            text::decimal(16),
                            text::decimal(kernels::raised(4, first % 128 / 32)),
                        ],
                    ),
                    text::filled(
                        q3k::BIT@,
                        seq![
                            text::decimal(first % 32),
                            text::decimal(16),
                            text::decimal(kernels::raised(2, first / 32)),
                        ],
                    ),
                ],
            );
            &&& q3k::matvec_lines(is + 1) == q3k::matvec_lines(is) + text::filled(
                q3k::MATVEC_LINE@,
                seq![decoded, text::decimal(is), text::decimal(first), text::decimal(16)],
            )
        }),
{
    lemma_powers();
    a_q3k_run_reads_its_elements(is, 0);
}

/// Eight elements of an IQ1_S block, of which `e` is one, share the grid byte `e / 8`. The
/// 32 around them share the word at byte `32 + e / 32 * 2`, which has three more bits of
/// the index for each eight in turn.
pub proof fn an_iq1s_lane_reads_its_elements(is: nat, l: nat)
    requires
        is < 32,
        l < 8,
    ensures
        ({
            let first = (8 * is) as nat;
            let e = (first + l) as nat;
            &&& iq1s::geometry(is).0 == e / 8
            &&& iq1s::geometry(is).1 == 32 + e / 32 * 2
            &&& iq1s::geometry(is).2 == 33 + e / 32 * 2
            &&& iq1s::geometry(is).3 == kernels::raised(2, 3 * (e % 32 / 8))
        }),
{
    lemma_powers();
}

/// The lines of that run in the kernels are what those numbers make of their words, at
/// the run's place in the block.
pub proof fn an_iq1s_lane_is_a_line_of_its_kernels(is: nat)
    requires
        is < 32,
    ensures
        ({
            let first = (8 * is) as nat;
            let decoded = ({
                let word = text::filled(
                        iq1s::QH@,
                        seq![
                            text::decimal(32 + first / 32 * 2),
                            text::decimal(33 + first / 32 * 2),
                        ],
                    );
                text::filled(
                    iq1s::DECODED@,
                    seq![
                        text::decimal(is),
                        text::filled(iq1s::DL@, seq![word]),
                        text::filled(
                            iq1s::IDX8@,
                            seq![
                                text::filled(
                                    iq1s::BASE_IDX@,
                                    seq![
                                        byte_text(first / 8),
                                        word,
                                        text::decimal(kernels::raised(2, 3 * (first % 32 / 8))),
                                    ],
                                ),
                                text::decimal(8),
                            ],
                        ),
                        text::filled(iq1s::DELTA@, seq![word]),
                    ],
                )
            });
            &&& iq1s::matvec_lines(is + 1) == iq1s::matvec_lines(is) + text::filled(
                iq1s::MATVEC_LINE@,
                seq![decoded, text::decimal(first), text::decimal(8), text::decimal(is)],
            )
            &&& iq1s::dequant_lines(is + 1) == iq1s::dequant_lines(is) + text::filled(
                iq1s::DEQUANT_LINE@,
                seq![decoded, text::decimal(first), text::decimal(8), text::decimal(is)],
            )
        }),
{
    lemma_powers();
    an_iq1s_lane_reads_its_elements(is, 0);
}

/// Eight elements of an IQ1_M block, of which `e` is one, have the grid byte `e / 8`. Even
/// eights read the lower half of their 32's first byte of high bits, odd ones the upper half
/// of the second: three bits of the index and above them the sign. Each sixteen has three
/// bits of a scale, in turn, the scales of 64 elements sharing a word from byte 48 on.
pub proof fn an_iq1m_lane_reads_its_elements(is: nat, l: nat)
    requires
        is < 32,
        l < 8,
    ensures
        ({
            let first = (8 * is) as nat;
            let e = (first + l) as nat;
            &&& iq1m::geometry(is).0 == e / 8
            &&& iq1m::geometry(is).1 == 32 + e / 32 * 2 + e / 8 % 2
            &&& iq1m::geometry(is).2 == kernels::raised(16, e / 8 % 2)
            &&& iq1m::geometry(is).3 == 8 * kernels::raised(16, e / 8 % 2)
            &&& iq1m::geometry(is).4 == 48 + e / 64 * 2
            &&& iq1m::geometry(is).5 == 49 + e / 64 * 2
            &&& iq1m::geometry(is).6 == kernels::raised(2, 3 * (e % 64 / 16))
        }),
{
    lemma_powers();
}

/// The lines of that run in the kernels are what those numbers make of their words, at
/// the run's place in the block.
pub proof fn an_iq1m_lane_is_a_line_of_its_kernels(is: nat)
    requires
        is < 32,
    ensures
        ({
            let first = (8 * is) as nat;
            let decoded = ({
                let high = byte_text(32 + first / 32 * 2 + first / 8 % 2);
                text::filled(
                    iq1m::DECODED@,
                    seq![
                        text::decimal(is),
                        text::filled(
                            iq1m::DL@,
                            seq![
                                text::filled(
                                    iq1m::WORD@,
                                    seq![
                                        byte_text(48 + first / 64 * 2),
                                        byte_text(49 + first / 64 * 2),
                                    ],
                                ),
                                text::decimal(kernels::raised(2, 3 * (first % 64 / 16))),
                            ],
                        ),
                        text::filled(
                            iq1m::IDX8@,
                            seq![
                                text::filled(
                                    iq1m::IDX@,
                                    seq![
                                        byte_text(first / 8),
                                        high,
                                        text::decimal(kernels::raised(16, first / 8 % 2)),
                                    ],
                                ),
                                text::decimal(8),
                            ],
                        ),
                        text::filled(
                            iq1m::DELTA@,
                            seq![high, text::decimal(8 * kernels::raised(16, first / 8 % 2))],
                        ),
                    ],
                )
            });
            &&& iq1m::matvec_lines(is + 1) == iq1m::matvec_lines(is) + text::filled(
                iq1m::MATVEC_LINE@,
                seq![decoded, text::decimal(first), text::decimal(8), text::decimal(is)],
            )
            &&& iq1m::dequant_lines(is + 1) == iq1m::dequant_lines(is) + text::filled(
                iq1m::DEQUANT_LINE@,
                seq![decoded, text::decimal(first), text::decimal(8), text::decimal(is)],
            )
        }),
{
    lemma_powers();
    an_iq1m_lane_reads_its_elements(is, 0);
}

/// The 32 elements around `e` of an IQ2_XXS block have eight bytes from `2 + e / 32 * 8` on:
/// a grid byte for each eight, then a word with seven bits of signs for each eight in turn
/// and the scale on top.
pub proof fn an_iq2xxs_lane_reads_its_elements(is: nat, l: nat)
    requires
        is < 32,
        l < 8,
    ensures
        ({
            let first = (8 * is) as nat;
            let e = (first + l) as nat;
            &&& iq2xxs::geometry(is).0 == 2 + e / 32 * 8 + e % 32 / 8
            &&& iq2xxs::geometry(is).1 == 9 + e / 32 * 8
            &&& iq2xxs::geometry(is).2 == 6 + e / 32 * 8 + 7 * (e % 32 / 8) / 8
            &&& iq2xxs::geometry(is).3 == 7 + e / 32 * 8 + 7 * (e % 32 / 8) / 8
            &&& iq2xxs::geometry(is).4 == kernels::raised(2, 7 * (e % 32 / 8) % 8)
        }),
{
    lemma_powers();
}

/// The lines of that run in the kernels are what those numbers make of their words, at
/// the run's place in the block.
pub proof fn an_iq2xxs_lane_is_a_line_of_its_kernels(is: nat)
    requires
        is < 32,
    ensures
        ({
            let first = (8 * is) as nat;
            let decoded = text::filled(
                iq2xxs::DECODED@,
                seq![
                    text::decimal(is),
                    text::filled(iq2xxs::DB@, seq![byte_text(9 + first / 32 * 8)]),
                    text::filled(
                        iq2xxs::MAG_IDX8@,
                        seq![byte_text(2 + first / 32 * 8 + first % 32 / 8), text::decimal(8)],
                    ),
                    text::filled(
                        iq2xxs::MAG_IDX8@,
                        seq![
                            sign_text(
                                iq2xxs::SIGNS_IDX_LOW@,
                                iq2xxs::SIGNS_IDX_HIGH@,
                                6 + first / 32 * 8,
                                7 * (first % 32 / 8),
                            ),
                            text::decimal(8),
                        ],
                    ),
                ],
            );
            &&& iq2xxs::matvec_lines(is + 1) == iq2xxs::matvec_lines(is) + text::filled(
                iq2xxs::MATVEC_LINE@,
                seq![decoded, text::decimal(first), text::decimal(8), text::decimal(is)],
            )
            &&& iq2xxs::dequant_lines(is + 1) == iq2xxs::dequant_lines(is) + text::filled(
                iq2xxs::DEQUANT_LINE@,
                seq![decoded, text::decimal(first), text::decimal(8), text::decimal(is)],
            )
        }),
{
    lemma_powers();
    an_iq2xxs_lane_reads_its_elements(is, 0);
}

/// Eight elements of an IQ2_XS block, of which `e` is one, have the word at byte
/// `2 + e / 8 * 2`. Each sixteen has half of the scale byte of its 32, `66 + e / 32`.
pub proof fn an_iq2xs_lane_reads_its_elements(is: nat, l: nat)
    requires
        is < 32,
        l < 8,
    ensures
        ({
            let first = (8 * is) as nat;
            let e = (first + l) as nat;
            &&& iq2xs::geometry(is).0 == 2 + e / 8 * 2
            &&& iq2xs::geometry(is).1 == 3 + e / 8 * 2
            &&& iq2xs::geometry(is).2 == 66 + e / 32
        }),
{
    lemma_powers();
}

/// The lines of that run in the kernels are what those numbers make of their words, at
/// the run's place in the block.
pub proof fn an_iq2xs_lane_is_a_line_of_its_kernels(is: nat)
    requires
        is < 32,
    ensures
        ({
            let first = (8 * is) as nat;
            let decoded = ({
                let word = text::filled(
                        iq2xs::Q16@,
                        seq![byte_text(2 + first / 8 * 2), byte_text(3 + first / 8 * 2)],
                    );
                text::filled(
                    iq2xs::DECODED@,
                    seq![
                        text::decimal(is),
                        text::filled(
                            iq2xs::DL@,
                            seq![
                                nibble_text(
                                    iq2xs::NIBBLE_LOW@,
                                    iq2xs::NIBBLE_HIGH@,
                                    first % 32 >= 16,
                                    66 + first / 32,
                                ),
                            ],
                        ),
                        text::filled(iq2xs::MAG_IDX8@, seq![word, text::decimal(8)]),
                        text::filled(iq2xs::SIGN_IDX8@, seq![word, text::decimal(8)]),
                    ],
                )
            });
            &&& iq2xs::matvec_lines(is + 1) == iq2xs::matvec_lines(is) + text::filled(
                iq2xs::MATVEC_LINE@,
                seq![decoded, text::decimal(first), text::decimal(8), text::decimal(is)],
            )
            &&& iq2xs::dequant_lines(is + 1) == iq2xs::dequant_lines(is) + text::filled(
                iq2xs::DEQUANT_LINE@,
                seq![decoded, text::decimal(first), text::decimal(8), text::decimal(is)],
            )
        }),
{
    lemma_powers();
    an_iq2xs_lane_reads_its_elements(is, 0);
}

/// Eight elements of an IQ2_S block, of which `e` is one, have the grid byte `e / 8` and the
/// sign byte `32 + e / 8`, and two more bits of the index, in turn, in byte `64 + e / 32`.
/// Each sixteen has half of the scale byte `72 + e / 32`.
pub proof fn an_iq2s_lane_reads_its_elements(is: nat, l: nat)
    requires
        is < 32,
        l < 8,
    ensures
        ({
            let first = (8 * is) as nat;
            let e = (first + l) as nat;
            &&& iq2s::geometry(is).0 == e / 8
            &&& iq2s::geometry(is).1 == 32 + e / 8
            &&& iq2s::geometry(is).2 == 64 + e / 32
            &&& iq2s::geometry(is).3 == 72 + e / 32
            &&& iq2s::geometry(is).4 == kernels::raised(4, e % 32 / 8)
        }),
{
    lemma_powers();
}

/// The lines of that run in the kernels are what those numbers make of their words, at
/// the run's place in the block.
pub proof fn an_iq2s_lane_is_a_line_of_its_kernels(is: nat)
    requires
        is < 32,
    ensures
        ({
            let first = (8 * is) as nat;
            let decoded = text::filled(
                iq2s::DECODED@,
                seq![
                    text::decimal(is),
                    text::filled(
                        iq2s::DL@,
                        seq![
                            nibble_text(
                                iq2s::NIBBLE_LOW@,
                                iq2s::NIBBLE_HIGH@,
                                first % 32 >= 16,
                                72 + first / 32,
                            ),
                        ],
                    ),
                    text::filled(
                        iq2s::MAG_IDX8@,
                        seq![
                            text::filled(
                                iq2s::GRID_IDX@,
                                seq![
                                    byte_text(first / 8),
                                    byte_text(64 + first / 32),
                                    text::decimal(kernels::raised(4, first % 32 / 8)),
                                ],
                            ),
                            text::decimal(8),
                        ],
                    ),
                    text::filled(
                        iq2s::MAG_IDX8@,
                        seq![byte_text(32 + first / 8), text::decimal(8)],
                    ),
                ],
            );
            &&& iq2s::matvec_lines(is + 1) == iq2s::matvec_lines(is) + text::filled(
                iq2s::MATVEC_LINE@,
                seq![decoded, text::decimal(first), text::decimal(8), text::decimal(is)],
            )
            &&& iq2s::dequant_lines(is + 1) == iq2s::dequant_lines(is) + text::filled(
                iq2s::DEQUANT_LINE@,
                seq![decoded, text::decimal(first), text::decimal(8), text::decimal(is)],
            )
        }),
{
    lemma_powers();
    an_iq2s_lane_reads_its_elements(is, 0);
}

/// Four elements of an IQ3_XXS block, of which `e` is one, have the grid byte `e / 4`. The
/// words from byte 64 on are those of IQ2_XXS, one for each 32: seven bits of signs for
/// each eight and the scale on top. The second four of an eight take its upper signs.
pub proof fn an_iq3xxs_half_lane_reads_its_elements(is: nat, l: nat, half: nat)
    requires
        is < 32,
        l < 4,
        half < 2,
    ensures
        ({
            let first = (8 * is + 4 * half) as nat;
            let e = (first + l) as nat;
            &&& iq3xxs::geometry(is).0 + half == e / 4
            &&& iq3xxs::geometry(is).1 == 67 + e / 32 * 4
            &&& iq3xxs::geometry(is).2 == 64 + e / 32 * 4 + 7 * (e % 32 / 8) / 8
            &&& iq3xxs::geometry(is).4 == kernels::raised(2, 7 * (e % 32 / 8) % 8)
        }),
{
    lemma_powers();
}

/// The lines of that run in the kernels are what those numbers make of their words, at
/// the run's place in the block.
pub proof fn an_iq3xxs_half_lane_is_a_line_of_its_kernels(is: nat, half: nat)
    requires
        is < 32,
        half < 2,
    ensures
        ({
            let first = (8 * is + 4 * half) as nat;
            let decoded = ({
                let iota = text::filled(iq3xxs::IOTA4@, seq![text::decimal(4)]);
                text::filled(
                    iq3xxs::DECODED@,
                    seq![
                        text::decimal(is),
                        text::decimal(half),
                        text::filled(iq3xxs::DB@, seq![byte_text(67 + first / 32 * 4)]),
                        text::filled(
                            iq3xxs::GRID_IDX8@,
                            seq![byte_text(first / 4), text::decimal(4), iota],
                        ),
                        text::filled(
                            iq3xxs::SIGN_IDX8@,
                            seq![
                                sign_text(
                                    iq3xxs::SIGNS_IDX_LOW@,
                                    iq3xxs::SIGNS_IDX_HIGH@,
                                    64 + first / 32 * 4,
                                    7 * (first % 32 / 8),
                                ),
                                text::decimal(first % 8),
                                iota,
                            ],
                        ),
                    ],
                )
            });
            &&& iq3xxs::matvec_line(is, half) == text::filled(
                iq3xxs::MATVEC_LINE@,
                seq![
                    decoded,
                    text::decimal(first),
                    text::decimal(4),
                    text::decimal(is),
                    text::decimal(half),
                ],
            )
            &&& iq3xxs::dequant_line(is, half) == text::filled(
                iq3xxs::DEQUANT_LINE@,
                seq![
                    decoded,
                    text::decimal(first),
                    text::decimal(4),
                    text::decimal(is),
                    text::decimal(half),
                ],
            )
            &&& iq3xxs::matvec_lines(is + 1) == iq3xxs::matvec_lines(is) + iq3xxs::matvec_line(is, 0) + iq3xxs::matvec_line(is, 1)
            &&& iq3xxs::dequant_lines(is + 1) == iq3xxs::dequant_lines(is) + iq3xxs::dequant_line(is, 0) + iq3xxs::dequant_line(is, 1)
        }),
{
    lemma_powers();
    an_iq3xxs_half_lane_reads_its_elements(is, 0, half);
}

/// Four elements of an IQ3_S block, of which `e` is one, have the grid byte `e / 4` and one
/// more bit of the index, in turn, in byte `64 + e / 32`. Each eight has the sign byte
/// `72 + e / 8`, and each 32 half of the scale byte `104 + e / 64`.
pub proof fn an_iq3s_half_lane_reads_its_elements(is: nat, l: nat, half: nat)
    requires
        is < 32,
        l < 4,
        half < 2,
    ensures
        ({
            let first = (8 * is + 4 * half) as nat;
            let e = (first + l) as nat;
            &&& iq3s::geometry(is).0 + half == e / 4
            &&& iq3s::geometry(is).1 == 64 + e / 32
            &&& iq3s::geometry(is).2 == 72 + e / 8
            &&& iq3s::geometry(is).3 == 104 + e / 64
            &&& half == 0 ==> iq3s::geometry(is).4 == kernels::raised(2, e % 32 / 4)
            &&& half == 1 ==> iq3s::geometry(is).5 == kernels::raised(2, e % 32 / 4)
        }),
{
    lemma_powers();
}

/// The lines of that run in the kernels are what those numbers make of their words, at
/// the run's place in the block.
pub proof fn an_iq3s_half_lane_is_a_line_of_its_kernels(is: nat, half: nat)
    requires
        is < 32,
        half < 2,
    ensures
        ({
            let first = (8 * is + 4 * half) as nat;
            let decoded = ({
                let iota = text::filled(iq3s::IOTA4@, seq![text::decimal(4)]);
                text::filled(
                    iq3s::DECODED@,
                    seq![
                        text::decimal(is),
                        text::decimal(half),
                        text::filled(
                            iq3s::DB@,
                            seq![
                                nibble_text(
                                    iq3s::NIBBLE_LOW@,
                                    iq3s::NIBBLE_HIGH@,
                                    first % 64 >= 32,
                                    104 + first / 64,
                                ),
                            ],
                        ),
                        text::filled(
                            iq3s::GRID_IDX8@,
                            seq![
                                text::filled(
                                    iq3s::GRID_IDX@,
                                    seq![
                                        byte_text(first / 4),
                                        byte_text(64 + first / 32),
                                        text::decimal(kernels::raised(2, first % 32 / 4)),
                                    ],
                                ),
                                text::decimal(4),
                                iota,
                            ],
                        ),
                        text::filled(
                            iq3s::SIGN_IDX8@,
                            seq![byte_text(72 + first / 8), text::decimal(first % 8), iota],
                        ),
                    ],
                )
            });
            &&& iq3s::matvec_line(is, half) == text::filled(
                iq3s::MATVEC_LINE@,
                seq![
                    decoded,
                    text::decimal(first),
                    text::decimal(4),
                    text::decimal(is),
                    text::decimal(half),
                ],
            )
            &&& iq3s::dequant_line(is, half) == text::filled(
                iq3s::DEQUANT_LINE@,
                seq![
                    decoded,
                    text::decimal(first),
                    text::decimal(4),
                    text::decimal(is),
                    text::decimal(half),
                ],
            )
            &&& iq3s::matvec_lines(is + 1) == iq3s::matvec_lines(is) + iq3s::matvec_line(is, 0) + iq3s::matvec_line(is, 1)
            &&& iq3s::dequant_lines(is + 1) == iq3s::dequant_lines(is) + iq3s::dequant_line(is, 0) + iq3s::dequant_line(is, 1)
        }),
{
    lemma_powers();
    an_iq3s_half_lane_reads_its_elements(is, 0, half);
}

/// Element `e` of an IQ4_XS block has its four bits in byte `8 + e / 32 * 16 + e % 16`, in the
/// lower half for the first sixteen of a run. A run of 32 has four bits of its scale in
/// byte `4 + e / 64`, in turn, and two in the word at byte 2, above `e / 32` other pairs.
pub proof fn an_iq4xs_run_reads_its_elements(is: nat, l: nat)
    requires
        is < 8,
        l < 32,
    ensures
        ({
            let first = (32 * is) as nat;
            let e = (first + l) as nat;
            &&& iq4xs::geometry(is).3 + l % 16 == 8 + e / 32 * 16 + e % 16
            &&& iq4xs::geometry(is).0 == 4 + e / 64
            &&& iq4xs::geometry(is).1 == kernels::raised(16, e / 32 % 2)
            &&& iq4xs::geometry(is).2 == kernels::raised(4, e / 32)
        }),
{
    lemma_powers();
}

/// The lines of that run in the kernels are what those numbers make of their words, at
/// the run's place in the block.
pub proof fn an_iq4xs_run_is_a_line_of_its_kernels(is: nat)
    requires
        is < 8,
    ensures
        ({
            let first = (32 * is) as nat;
            let decoded = text::filled(
                iq4xs::DECODED@,
                seq![
                    text::decimal(is),
                    text::decimal(32),
                    text::decimal(16),
                    text::filled(
                        iq4xs::QS16@,
                        seq![text::decimal(8 + first / 32 * 16), text::decimal(16)],
                    ),
                    text::filled(
                        iq4xs::DL@,
                        seq![
                            text::filled(
                                iq4xs::LOW@,
                                seq![
                                    byte_text(4 + first / 64),
                                    text::decimal(kernels::raised(16, first / 32 % 2)),
                                ],
                            ),
                            text::filled(
                                iq4xs::HIGH@,
                                seq![
                                    text::filled(
                                        iq4xs::SCALES_H@,
                                        seq![byte_text(2), byte_text(3)],
                                    ),
                                    text::decimal(kernels::raised(4, first / 32)),
                                ],
                            ),
                        ],
                    ),
                ],
            );
            &&& iq4xs::matvec_lines(is + 1) == iq4xs::matvec_lines(is) + text::filled(
                iq4xs::MATVEC_LINE@,
                seq![decoded, text::decimal(is), text::decimal(first), text::decimal(32)],
            )
            &&& iq4xs::dequant_lines(is + 1) == iq4xs::dequant_lines(is) + text::filled(
                iq4xs::DEQUANT_LINE@,
                seq![decoded, text::decimal(first), text::decimal(32), text::decimal(is)],
            )
        }),
{
    lemma_powers();
    an_iq4xs_run_reads_its_elements(is, 0);
}

} // verus!
