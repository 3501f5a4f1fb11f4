//! The staged prompt projections, one kernel a raw format.

use vstd::prelude::*;

use crate::quant::Quant;
use crate::text::{self, Args};

verus! {

broadcast use crate::text::lemma_filled_args;

/// Rows, columns and threads of a staged projection.
pub const QGEMM_TM: usize = 128;

pub const QGEMM_TN: usize = 64;

pub const QGEMM_CTA: usize = 256;

/// The ternary grid at two bits a lane.
pub const IQ1_GRID2_LEN: usize = 2048 * 2;

/// The same grid at a nibble a lane.
pub const IQ1_GRID4_LEN: usize = 2048 * 4;

/// The lengths of the tables a format's kernel reads: the magnitude grid, then
/// the sign masks where the format carries signs apart.
pub open spec fn tables_of(quant: Quant) -> Option<Seq<usize>> {
    match quant {
        Quant::IQ1_S | Quant::IQ1_M => Some(seq![4096usize]),
        Quant::IQ2_XXS => Some(seq![2048usize, 1024]),
        Quant::IQ2_XS => Some(seq![4096usize, 1024]),
        Quant::IQ2_S => Some(seq![8192usize, 2048]),
        Quant::IQ3_XXS => Some(seq![1024usize, 1024]),
        Quant::IQ3_S => Some(seq![2048usize, 2048]),
        Quant::Q4_K | Quant::Q5_K | Quant::Q6_K => Some(Seq::empty()),
        _ => None,
    }
}

pub fn qgemm_tables(quant: Quant) -> (tables: Option<Vec<usize>>)
    ensures
        match tables {
            Some(t) => tables_of(quant) == Some(t@),
            None => tables_of(quant) is None,
        },
{
    match quant {
        Quant::IQ1_S | Quant::IQ1_M => {
            let t: Vec<usize> = vec![4096];
            assert(t@ =~= seq![4096usize]);
            Some(t)
        },
        Quant::IQ2_XXS => {
            let t: Vec<usize> = vec![2048, 1024];
            assert(t@ =~= seq![2048usize, 1024]);
            Some(t)
        },
        Quant::IQ2_XS => {
            let t: Vec<usize> = vec![4096, 1024];
            assert(t@ =~= seq![4096usize, 1024]);
            Some(t)
        },
        Quant::IQ2_S => {
            let t: Vec<usize> = vec![8192, 2048];
            assert(t@ =~= seq![8192usize, 2048]);
            Some(t)
        },
        Quant::IQ3_XXS => {
            let t: Vec<usize> = vec![1024, 1024];
            assert(t@ =~= seq![1024usize, 1024]);
            Some(t)
        },
        Quant::IQ3_S => {
            let t: Vec<usize> = vec![2048, 2048];
            assert(t@ =~= seq![2048usize, 2048]);
            Some(t)
        },
        Quant::Q4_K | Quant::Q5_K | Quant::Q6_K => {
            let t: Vec<usize> = Vec::new();
            assert(t@ =~= Seq::empty());
            Some(t)
        },
        _ => None,
    }
}

/// The name of a format's staged kernel and intrinsic.
pub open spec fn stem_of(quant: Quant) -> Option<Seq<char>> {
    match quant {
        Quant::IQ1_S => Some("iq1s"@),
        Quant::IQ1_M => Some("iq1m"@),
        Quant::IQ2_XXS => Some("iq2xxs"@),
        Quant::IQ2_XS => Some("iq2xs"@),
        Quant::IQ2_S => Some("iq2s"@),
        Quant::IQ3_XXS => Some("iq3xxs"@),
        Quant::IQ3_S => Some("iq3s"@),
        Quant::Q4_K => Some("q4k"@),
        Quant::Q5_K => Some("q5k"@),
        Quant::Q6_K => Some("q6k"@),
        _ => None,
    }
}

pub open spec fn kernel_of(quant: Quant) -> Option<Seq<char>> {
    match quant {
        Quant::IQ1_S => Some("iq1s_qgemm"@),
        Quant::IQ1_M => Some("iq1m_qgemm"@),
        Quant::IQ2_XXS => Some("iq2xxs_qgemm"@),
        Quant::IQ2_XS => Some("iq2xs_qgemm"@),
        Quant::IQ2_S => Some("iq2s_qgemm"@),
        Quant::IQ3_XXS => Some("iq3xxs_qgemm"@),
        Quant::IQ3_S => Some("iq3s_qgemm"@),
        Quant::Q4_K => Some("q4k_qgemm"@),
        Quant::Q5_K => Some("q5k_qgemm"@),
        Quant::Q6_K => Some("q6k_qgemm"@),
        _ => None,
    }
}

pub fn qgemm_name(quant: Quant) -> (name: Option<&'static str>)
    ensures
        match name {
            Some(s) => stem_of(quant) == Some(s@),
            None => stem_of(quant) is None,
        },
{
    match quant {
        Quant::IQ1_S => Some("iq1s"),
        Quant::IQ1_M => Some("iq1m"),
        Quant::IQ2_XXS => Some("iq2xxs"),
        Quant::IQ2_XS => Some("iq2xs"),
        Quant::IQ2_S => Some("iq2s"),
        Quant::IQ3_XXS => Some("iq3xxs"),
        Quant::IQ3_S => Some("iq3s"),
        Quant::Q4_K => Some("q4k"),
        Quant::Q5_K => Some("q5k"),
        Quant::Q6_K => Some("q6k"),
        _ => None,
    }
}

pub fn qgemm_kernel(quant: Quant) -> (name: Option<&'static str>)
    ensures
        match name {
            Some(s) => kernel_of(quant) == Some(s@),
            None => kernel_of(quant) is None,
        },
{
    match quant {
        Quant::IQ1_S => Some("iq1s_qgemm"),
        Quant::IQ1_M => Some("iq1m_qgemm"),
        Quant::IQ2_XXS => Some("iq2xxs_qgemm"),
        Quant::IQ2_XS => Some("iq2xs_qgemm"),
        Quant::IQ2_S => Some("iq2s_qgemm"),
        Quant::IQ3_XXS => Some("iq3xxs_qgemm"),
        Quant::IQ3_S => Some("iq3s_qgemm"),
        Quant::Q4_K => Some("q4k_qgemm"),
        Quant::Q5_K => Some("q5k_qgemm"),
        Quant::Q6_K => Some("q6k_qgemm"),
        _ => None,
    }
}

pub const TABLE_PARAM: &'static str = "T$0: tensor<i8>[1, $1], ";

pub const TABLE_ARG: &'static str = ",\n                                                T$0[0 :+ 1, :]";

pub const QGEMM: &'static str = "@launch($0, 2)
@autotune(TM in [$1], TN in [$2])
@aligned(M = TM, N = TN, K = 256)
kernel $3_qgemm(A: tensor<i8>[M, K], AS: tensor<f32>[M, KB],
                  QB: tensor<i8>[N, RB], D: tensor<f16>[N, NB],
                  $4C: tensor<f32>[M, N]) {
  let pm = program_id(0)
  let pn = program_id(1)
  C[pm * TM :+ TM, pn * TN :+ TN] = $3_qgemm_t(A[pm * TM :+ TM, :], AS[pm * TM :+ TM, :],
                                                QB[pn * TN :+ TN, :], D[pn * TN :+ TN, :]$5)
}
";

pub open spec fn table_params(tables: Seq<usize>) -> Seq<char>
    decreases tables.len(),
{
    if tables.len() == 0 {
        Seq::empty()
    } else {
        table_params(tables.drop_last()) + text::filled(
            TABLE_PARAM@,
            seq![text::decimal((tables.len() - 1) as nat), text::decimal(tables.last() as nat)],
        )
    }
}

pub open spec fn table_args(count: nat) -> Seq<char>
    decreases count,
{
    if count == 0 {
        Seq::empty()
    } else {
        table_args((count - 1) as nat) + text::filled(
            TABLE_ARG@,
            seq![text::decimal((count - 1) as nat)],
        )
    }
}

/// The source of a format's staged projection. A format with no tables declares
/// none and passes none.
pub fn qgemm_src(quant: Quant) -> (src: Option<String>)
    ensures
        match src {
            Some(s) => {
                &&& tables_of(quant) is Some
                &&& s@ == text::filled(
                    QGEMM@,
                    seq![
                        text::decimal(256),
                        text::decimal(128),
                        text::decimal(64),
                        stem_of(quant)->Some_0,
                        table_params(tables_of(quant)->Some_0),
                        table_args(tables_of(quant)->Some_0.len()),
                    ],
                )
            },
            None => tables_of(quant) is None,
        },
{
    let name = match qgemm_name(quant) {
        Some(name) => name,
        None => {
            return None;
        },
    };
    let tables = match qgemm_tables(quant) {
        Some(tables) => tables,
        None => {
            return None;
        },
    };
    let mut params = String::new();
    let mut args = String::new();
    let mut i: usize = 0;
    assert(tables@.take(0) =~= Seq::empty());
    assert(params@ =~= Seq::empty());
    assert(args@ =~= Seq::empty());
    while i < tables.len()
        invariant
            i <= tables@.len(),
            params@ == table_params(tables@.take(i as int)),
            args@ == table_args(i as nat),
        decreases tables@.len() - i,
    {
        let ghost head = tables@.take(i as int + 1);
        assert(head.drop_last() =~= tables@.take(i as int));
        assert(head.last() == tables@[i as int]);
        params.append(Args::new().num(i).num(tables[i]).fill(TABLE_PARAM).as_str());
        args.append(Args::new().num(i).fill(TABLE_ARG).as_str());
        i = i + 1;
    }
    assert(tables@.take(i as int) =~= tables@);
    Some(
        Args::new().num(QGEMM_CTA).num(QGEMM_TM).num(QGEMM_TN).text(name).text(params.as_str()).text(
            args.as_str(),
        ).fill(QGEMM),
    )
}

} // verus!
