use bedfragment_ds::chrom::ChromOrder;
use bedfragment_ds::records::{filter_sort, start_coord};

fn lines(v: &[&str]) -> Vec<String> {
    v.iter().map(|s| s.to_string()).collect()
}

fn order_chr1_chr2() -> ChromOrder {
    ChromOrder::build(&lines(&["chr1\t248956422", "chr2\t242193529"]))
}

// The sizes table ranks names by order of first appearance, skipping blank
// lines; the first whitespace-separated field is the name.
#[test]
fn chrom_order_ranks_in_file_order() {
    let ord = ChromOrder::build(&lines(&["chr1 100", "", "   ", "chrX\t50", "chr2 7"]));
    assert_eq!(ord.rank("chr1"), Some(0));
    assert_eq!(ord.rank("chrX"), Some(1));
    assert_eq!(ord.rank("chr2"), Some(2));
    assert_eq!(ord.rank("chr3"), None);
    assert_eq!(ord.len(), 3);
}

// Leading whitespace is skipped before the name, and a line holding only a
// name still ranks.
#[test]
fn chrom_order_tolerates_odd_spacing() {
    let ord = ChromOrder::build(&lines(&["  chr9\t100", "chrZ"]));
    assert_eq!(ord.rank("chr9"), Some(0));
    assert_eq!(ord.rank("chrZ"), Some(1));
}

// A repeated name keeps its last rank, as a map filled by insertion would.
#[test]
fn chrom_order_duplicate_last_wins() {
    let ord = ChromOrder::build(&lines(&["chr1 1", "chr2 2", "chr1 3"]));
    assert_eq!(ord.rank("chr1"), Some(2));
    assert_eq!(ord.rank("chr2"), Some(1));
}

// Records on chromosomes the table does not know never reach the output.
#[test]
fn unknown_chromosomes_dropped() {
    let ord = order_chr1_chr2();
    let recs = lines(&["chrUn\t5\t6", "chr1\t10\t20", "scaffold_1\t1\t2", "chr2\t1\t2"]);
    let out = filter_sort(&recs, &ord);
    assert_eq!(out, lines(&["chr1\t10\t20", "chr2\t1\t2"]));
}

// Rank orders first; within a chromosome the numeric start decides.
#[test]
fn sort_by_rank_then_start() {
    let ord = order_chr1_chr2();
    let recs = lines(&[
        "chr2\t5\t6",
        "chr1\t300\t400",
        "chr1\t20\t30",
        "chr2\t1\t2",
        "chr1\t100\t200",
    ]);
    let out = filter_sort(&recs, &ord);
    assert_eq!(
        out,
        lines(&[
            "chr1\t20\t30",
            "chr1\t100\t200",
            "chr1\t300\t400",
            "chr2\t1\t2",
            "chr2\t5\t6",
        ])
    );
}

// A missing or malformed start coordinate counts as 0 and sorts first.
#[test]
fn malformed_start_sorts_as_zero() {
    let ord = order_chr1_chr2();
    let recs = lines(&["chr1\t10\t20", "chr1\tabc\t2", "chr1"]);
    let out = filter_sort(&recs, &ord);
    assert_eq!(out, lines(&["chr1\tabc\t2", "chr1", "chr1\t10\t20"]));
}

// Records tied on both keys keep their arrival order, duplicates included.
#[test]
fn ties_keep_arrival_order() {
    let ord = order_chr1_chr2();
    let recs = lines(&["chr1\t5\tfirst", "chr1\t5\tsecond", "chr1\t5\tfirst"]);
    let out = filter_sort(&recs, &ord);
    assert_eq!(out, recs);
}

// The start coordinate is the second tab field read as u32, with 0 for
// anything that does not parse, an overflow included.
#[test]
fn start_coordinate_parsing() {
    assert_eq!(start_coord("chr1\t42\t100"), 42);
    assert_eq!(start_coord("chr1\t+42\t100"), 42);
    assert_eq!(start_coord("chr1\t\t100"), 0);
    assert_eq!(start_coord("chr1"), 0);
    assert_eq!(start_coord("chr1\t12x\t100"), 0);
    assert_eq!(start_coord("chr1\t4294967295\tz"), u32::MAX);
    assert_eq!(start_coord("chr1\t4294967296\tz"), 0);
    assert_eq!(start_coord("chr1\t-1\tz"), 0);
}
