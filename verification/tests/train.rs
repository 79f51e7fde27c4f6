use spm_ocr::corpus::axis::default_axes;
use spm_ocr::corpus::canonical::Canonicalizer;
use spm_ocr::train::{
    allocate_exact, assemble_plan, chunk_quotas, classify_bucket, count_chunk, is_math_line, quotas_within_counts,
    sample_chunk, should_take,
    tally_plan, Bucket, BucketCounts, ChunkPlan, ChunkStats, MathPolicy, PrepareError, PrepareOptions, SplitMix64,
};

fn canon() -> Canonicalizer {
    Canonicalizer::new(default_axes(), &[]).unwrap()
}

fn options(target_lines: u64, max_line_bytes: usize, shuffle: usize, budget: u64, policy: MathPolicy) -> PrepareOptions {
    PrepareOptions {
        target_lines,
        alpha_bits: 0.3f64.to_bits(),
        seed: 7,
        max_line_bytes,
        shuffle_buffer_lines: shuffle,
        memory_budget_bytes: budget,
        drop_invalid_utf8: false,
        drop_long_lines: false,
        math_policy: policy,
    }
}

fn balanced(share: f64) -> MathPolicy {
    MathPolicy::Balanced { max_share_bits: share.to_bits() }
}

fn text(script: &str) -> Bucket {
    match script {
        "Latin" => Bucket::Text("Latin"),
        "Cyrillic" => Bucket::Text("Cyrillic"),
        _ => Bucket::Unclassified,
    }
}

fn label(b: Bucket) -> String {
    b.label()
}

#[test]
fn latex_lines_are_bucketed_before_script() {
    assert_eq!(label(classify_bucket(r"\frac{x}{y}", balanced(0.1))), label(Bucket::Math));
    assert_eq!(label(classify_bucket(r"\frac{x}{y}", MathPolicy::ReportOnly)), label(text("Latin")));
}

#[test]
fn text_lines_use_the_dominant_writing_system() {
    assert_eq!(label(classify_bucket("hello world Пр", MathPolicy::ReportOnly)), "text:Latin");
    assert_eq!(label(classify_bucket("Привіт hello", MathPolicy::ReportOnly)), "text:Cyrillic");
}

#[test]
fn chunk_quota_allocation_is_exact() {
    let counts = vec![(0usize, 5u64), (1, 5), (2, 10)];
    let quotas = allocate_exact(&counts, 7);

    assert_eq!(quotas.iter().map(|(_, q)| *q).sum::<u64>(), 7);
    assert!(quotas.iter().all(|(_, quota)| *quota <= 10));
}

#[test]
fn streaming_sampler_takes_the_exact_chunk_quota() {
    let bytes = b"one\ntwo\nthree\nfour\n";
    let chunk = ChunkPlan {
        source_index: 0,
        range: 0..bytes.len(),
        counts: BucketCounts { math: 0, text: vec![("Latin", 4)], unclassified: 0 },
        quotas: BucketCounts { math: 0, text: vec![("Latin", 2)], unclassified: 0 },
    };
    let options = options(2, 128, 4, 1024, MathPolicy::ReportOnly);

    let lines = sample_chunk(bytes, &chunk, &canon(), &options);

    assert_eq!(lines.len(), 2);
}

#[test]
fn canonicalization_happens_before_counting() {
    let options = options(1, 5, 1, 16, MathPolicy::ReportOnly);
    let line = "cafe\u{0301}\n";
    let stats = count_chunk(0, 0..line.len(), line.as_bytes(), &canon(), &options);

    assert_eq!(stats.long_lines, 0, "NFC shortens this line before limit checks");
    let eligible = stats.counts.math + stats.counts.text.iter().map(|(_, c)| *c).sum::<u64>() + stats.counts.unclassified;
    assert_eq!(eligible, 1);
}

#[test]
fn allocation_gives_leftovers_to_the_largest_remainders() {
    let counts = vec![(3usize, 1u64), (5, 1), (9, 1)];
    assert_eq!(allocate_exact(&counts, 2), vec![(3, 1), (5, 1), (9, 0)]);
    assert_eq!(allocate_exact(&counts, 5), vec![(3, 1), (5, 1), (9, 1)]);
    assert!(allocate_exact(&counts, 0).is_empty());
    let uneven = vec![(0usize, 1u64), (1, 3)];
    assert_eq!(allocate_exact(&uneven, 3), vec![(0, 1), (1, 2)]);
}

#[test]
fn options_are_checked_in_order() {
    assert_eq!(options(0, 5, 1, 16, MathPolicy::ReportOnly).validate(), Err(PrepareError::ZeroTargetLines));
    let mut bad_alpha = options(1, 5, 1, 16, MathPolicy::ReportOnly);
    bad_alpha.alpha_bits = f64::NAN.to_bits();
    assert_eq!(bad_alpha.validate(), Err(PrepareError::BadAlpha));
    bad_alpha.alpha_bits = (-0.5f64).to_bits();
    assert_eq!(bad_alpha.validate(), Err(PrepareError::BadAlpha));
    assert_eq!(options(1, 0, 1, 16, MathPolicy::ReportOnly).validate(), Err(PrepareError::ZeroMaxLineBytes));
    assert_eq!(options(1, 5, 0, 16, MathPolicy::ReportOnly).validate(), Err(PrepareError::ZeroShuffleBuffer));
    assert_eq!(options(1, 5, 1, 16, balanced(1.5)).validate(), Err(PrepareError::BadMathShare));
    assert_eq!(options(1, 5, 1, 16, balanced(1.0)).validate(), Ok(()));
    assert_eq!(options(1, 5, 1, 16, balanced(-0.0)).validate(), Ok(()));
    let over = options(1, 5, 4, 16, MathPolicy::ReportOnly).validate();
    assert_eq!(over, Err(PrepareError::ShuffleOverBudget { worst_case: 20 }));
    assert_eq!(over.unwrap_err().message(), "shuffle buffer could hold up to 20 bytes, above --memory-budget-gb");
}

#[test]
fn math_lines_are_recognised_by_commands_and_symbols() {
    assert!(is_math_line(r"\begin{align}"));
    assert!(is_math_line("x^2"));
    assert!(is_math_line("a ≤ b"));
    assert!(!is_math_line("plain \\ text"));
    assert!(!is_math_line("trailing \\"));
}

#[test]
fn the_sampler_is_deterministic_and_takes_everything_when_the_quota_covers_it() {
    let mut a = SplitMix64::new(7);
    let mut b = SplitMix64::new(7);
    assert_eq!(a.next(), b.next());
    assert_eq!(a.next_below(0), 0);
    let mut rng = SplitMix64::new(1);
    assert!(should_take(&mut rng, 3, 3));
    assert!(!should_take(&mut rng, 3, 0));
    assert!(!should_take(&mut rng, 0, 3));
}

#[test]
fn a_plan_spreads_bucket_quotas_over_chunks() {
    let opts = options(3, 128, 4, 1024, MathPolicy::ReportOnly);
    let first = b"alpha\nbeta\n";
    let second = b"gamma\n\xff\n";
    let stats: Vec<ChunkStats> = vec![
        count_chunk(1, 0..second.len(), second, &canon(), &opts),
        count_chunk(0, 0..first.len(), first, &canon(), &opts),
    ];
    let refused = tally_plan(
        vec![count_chunk(1, 0..second.len(), second, &canon(), &opts)],
        &opts,
    );
    assert_eq!(refused.unwrap_err().message(), "1 lines are not valid UTF-8; pass --drop-invalid to skip them");

    let mut dropping = opts;
    dropping.drop_invalid_utf8 = true;
    let tally = tally_plan(stats, &dropping).unwrap();
    assert_eq!(tally.eligible_lines, 3);
    assert_eq!(tally.invalid_utf8, 1);
    assert_eq!(tally.chunks[0].source_index, 0);
    let quotas = BucketCounts { math: 0, text: vec![("Latin", 2)], unclassified: 0 };
    let per_chunk = chunk_quotas(&tally.chunks, &quotas);
    assert_eq!(per_chunk[0].text, vec![("Latin", 1)]);
    assert_eq!(per_chunk[1].text, vec![("Latin", 1)]);
    let plan = assemble_plan(tally, quotas);
    assert_eq!(plan.selected_lines, 2);
    assert_eq!(plan.chunks.len(), 2);
    assert_eq!(plan.chunks[1].source_index, 1);
}

#[test]
fn allocation_hands_out_exactly_the_target_or_every_line() {
    let counts = vec![(0usize, 3u64), (2, 5), (7, 2), (9, 0)];
    for target in 0..=12u64 {
        let alloc = allocate_exact(&counts, target);
        let handed: u64 = alloc.iter().map(|(_, q)| *q).sum();
        assert_eq!(handed, target.min(10), "target {target}");
        for (k, (key, q)) in alloc.iter().enumerate() {
            assert_eq!(*key, counts[k].0);
            assert!(*q <= counts[k].1);
        }
    }
}

#[test]
fn a_quota_above_its_bucket_is_caught_before_planning() {
    let counts = BucketCounts { math: 1, text: vec![("Greek", 4), ("Latin", 3)], unclassified: 0 };
    let fitting = BucketCounts { math: 1, text: vec![("Latin", 3)], unclassified: 0 };
    let too_many = BucketCounts { math: 0, text: vec![("Greek", 5)], unclassified: 0 };
    let unknown = BucketCounts { math: 0, text: vec![("Han", 1)], unclassified: 0 };
    assert!(quotas_within_counts(&fitting, &counts));
    assert!(!quotas_within_counts(&too_many, &counts));
    assert!(!quotas_within_counts(&unknown, &counts));
}
