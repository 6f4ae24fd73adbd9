//! Content-quality findings drawn from processing counts, with a guard
//! against percentages that cannot be right.

use vstd::prelude::*;

verus! {

/// One content-quality finding.
#[derive(Debug, Clone, Copy, PartialEq, Eq, Structural)]
pub enum QualityInsight {
    /// The average stored file is under 1000 bytes.
    SmallFiles { average_size: i64 },
    /// More than 10% of processed tasks produced no content.
    EmptyContent { empty: i64, total: i64 },
    /// Every processed task produced content.
    ExcellentQuality { total: i64 },
}

/// The share of empty outputs is a possible percentage: no more empty
/// outputs than processed tasks.
pub open spec fn plausible(empty: int, total: int) -> bool {
    empty <= total
}

/// The findings for the given counts: small files when the average size
/// is under 1000; then, with both counts positive, an empty-content
/// finding when the share exceeds 10% and nothing more when the share
/// exceeds 100% (the counts are inconsistent); with no empty outputs and
/// some processed tasks, an excellent-quality finding.
pub open spec fn quality_findings(avg: i64, empty: i64, total: i64) -> Seq<QualityInsight> {
    let small = if avg < 1000 {
        seq![QualityInsight::SmallFiles { average_size: avg }]
    } else {
        Seq::empty()
    };
    if empty > 0 && total > 0 {
        if !plausible(empty as int, total as int) {
            small
        } else if (empty as int) * 10 > total as int {
            small.push(QualityInsight::EmptyContent { empty, total })
        } else {
            small
        }
    } else if empty == 0 && total > 0 {
        small.push(QualityInsight::ExcellentQuality { total })
    } else {
        small
    }
}

/// Derives the content-quality findings from the average file size, the
/// number of tasks without output and the number of completed tasks.
pub fn content_quality_insights(average_file_size: i64, empty_content_count: i64, total_processed: i64) -> (r: Vec<QualityInsight>)
    ensures
        r@ == quality_findings(average_file_size, empty_content_count, total_processed),
{
    let mut out: Vec<QualityInsight> = Vec::new();
    if average_file_size < 1000 {
        out.push(QualityInsight::SmallFiles { average_size: average_file_size });
    }
    let ghost small = out@;
    if empty_content_count > 0 && total_processed > 0 {
        if empty_content_count > total_processed {
            return out;
        }
        if empty_content_count as i128 * 10 > total_processed as i128 {
            out.push(QualityInsight::EmptyContent { empty: empty_content_count, total: total_processed });
        }
    } else if empty_content_count == 0 && total_processed > 0 {
        out.push(QualityInsight::ExcellentQuality { total: total_processed });
    }
    proof {
        if average_file_size < 1000 {
            assert(small =~= seq![QualityInsight::SmallFiles { average_size: average_file_size }]);
        } else {
            assert(small =~= Seq::<QualityInsight>::empty());
        }
    }
    out
}

/// An empty-content share above 100% never yields an empty-content
/// finding (nor any finding about completeness).
pub proof fn lemma_implausible_share_is_suppressed(avg: i64, empty: i64, total: i64)
    requires
        total > 0,
        empty > total,
    ensures
        forall|i: int|
            0 <= i < quality_findings(avg, empty, total).len() ==> !(#[trigger] quality_findings(
                avg,
                empty,
                total,
            )[i] is EmptyContent) && !(quality_findings(avg, empty, total)[i] is ExcellentQuality),
{
}

} // verus!
