use epub_translator::translate::chunk::{copy_lines, partition, Chunk};
use epub_translator::translate::orchestrator::{
    append_lines, Orchestrator, RetryExhausted, Step, MAX_RETRY_DEPTH,
};
use epub_translator::translate::outcome::{sort_by_number, TranslationOutcome};

fn lines(items: &[&str]) -> Vec<String> {
    items.iter().map(|s| s.to_string()).collect()
}

fn numbered(count: usize) -> Vec<String> {
    (1..=count).map(|i| format!("line {}", i)).collect()
}

fn outcome(number: usize, original: &[&str], translated: &[&str]) -> TranslationOutcome {
    TranslationOutcome {
        number,
        original_lines: lines(original),
        translated_lines: lines(translated),
    }
}

/// Answers a chunk as a backend that translates line by line.
fn echo(chunk: &Chunk) -> TranslationOutcome {
    TranslationOutcome {
        number: chunk.number,
        original_lines: chunk.lines.clone(),
        translated_lines: chunk.lines.iter().map(|l| format!("[TR]{}", l)).collect(),
    }
}

/// Answers a chunk with one line too few.
fn short(chunk: &Chunk) -> TranslationOutcome {
    let mut outcome = echo(chunk);
    outcome.translated_lines.pop();
    outcome
}

/// Runs the orchestrator against `backend`, handing the outcomes of each
/// batch back in the order that `arrange` puts them in. Returns the last
/// step and the batches that were sent.
fn run(
    input: Vec<String>,
    chunk_lines: usize,
    backend: &mut dyn FnMut(usize, &Chunk) -> TranslationOutcome,
    arrange: &dyn Fn(&mut Vec<TranslationOutcome>),
) -> (Step, Vec<(usize, Vec<Chunk>)>) {
    let (mut orchestrator, mut step) = Orchestrator::start(input, chunk_lines);
    let mut batches = Vec::new();
    loop {
        let chunks = match step {
            Step::Dispatch(chunks) => chunks,
            last => return (last, batches),
        };
        let depth = orchestrator.depth();
        assert!(depth <= MAX_RETRY_DEPTH);
        assert_eq!(
            orchestrator.awaited_lines(),
            chunks.iter().map(|c| c.lines.len()).sum::<usize>()
        );
        let mut outcomes: Vec<TranslationOutcome> =
            chunks.iter().map(|c| backend(depth, c)).collect();
        arrange(&mut outcomes);
        batches.push((depth, chunks));
        step = orchestrator.resume(outcomes);
    }
}

fn in_order(_: &mut Vec<TranslationOutcome>) {}

fn reversed(outcomes: &mut Vec<TranslationOutcome>) {
    outcomes.reverse();
}

fn shuffled(outcomes: &mut Vec<TranslationOutcome>) {
    let count = outcomes.len();
    let mut state: usize = 12345;
    for i in (1..count).rev() {
        state = state.wrapping_mul(1103515245).wrapping_add(12345);
        outcomes.swap(i, (state >> 16) % (i + 1));
    }
}

#[test]
fn partition_cuts_into_numbered_chunks() {
    let chunks = partition(&numbered(5), 2);
    assert_eq!(
        chunks,
        vec![
            Chunk { number: 1, lines: lines(&["line 1", "line 2"]) },
            Chunk { number: 2, lines: lines(&["line 3", "line 4"]) },
            Chunk { number: 3, lines: lines(&["line 5"]) },
        ]
    );
}

#[test]
fn partition_edge_cases() {
    assert_eq!(partition(&vec![], 3), vec![]);
    assert_eq!(
        partition(&numbered(2), 5),
        vec![Chunk { number: 1, lines: numbered(2) }]
    );
    assert_eq!(partition(&numbered(4), 2).len(), 2);
    assert_eq!(partition(&numbered(4), 4).len(), 1);
    assert_eq!(partition(&numbered(3), usize::MAX).len(), 1);
    let single = partition(&numbered(3), 1);
    assert_eq!(single.len(), 3);
    for (i, chunk) in single.iter().enumerate() {
        assert_eq!(chunk.number, i + 1);
        assert_eq!(chunk.lines, vec![format!("line {}", i + 1)]);
    }
}

#[test]
fn partition_loses_nothing() {
    for count in 0..12 {
        for size in 1..6 {
            let input = numbered(count);
            let chunks = partition(&input, size);
            assert_eq!(chunks.len(), (count + size - 1) / size);
            let mut all = Vec::new();
            for (i, chunk) in chunks.iter().enumerate() {
                assert_eq!(chunk.number, i + 1);
                assert!(!chunk.lines.is_empty() && chunk.lines.len() <= size);
                if i + 1 < chunks.len() {
                    assert_eq!(chunk.lines.len(), size);
                }
                all.extend(chunk.lines.clone());
            }
            assert_eq!(all, input);
        }
    }
}

#[test]
fn copy_lines_copies_a_range() {
    let input = numbered(4);
    assert_eq!(copy_lines(&input, 1, 3), lines(&["line 2", "line 3"]));
    assert_eq!(copy_lines(&input, 2, 2), lines(&[]));
    assert_eq!(copy_lines(&input, 0, 4), input);
}

#[test]
fn append_lines_appends_copies() {
    let mut out = lines(&["a"]);
    append_lines(&mut out, &lines(&["b", "c"]));
    assert_eq!(out, lines(&["a", "b", "c"]));
}

#[test]
fn sort_by_number_restores_the_order_of_dispatch() {
    let dispatched: Vec<TranslationOutcome> =
        partition(&numbered(9), 2).iter().map(echo).collect();
    for arrange in [in_order as fn(&mut Vec<TranslationOutcome>), reversed, shuffled] {
        let mut arrived = dispatched.clone();
        arrange(&mut arrived);
        assert_eq!(sort_by_number(arrived), dispatched);
    }
}

#[test]
fn sort_by_number_keeps_equal_numbers_in_order_of_arrival() {
    let arrived = vec![
        outcome(2, &["a"], &["first"]),
        outcome(1, &["b"], &["x"]),
        outcome(2, &["a"], &["second"]),
        outcome(0, &["c"], &["y"]),
    ];
    let sorted = sort_by_number(arrived);
    let seen: Vec<(usize, &str)> = sorted
        .iter()
        .map(|o| (o.number, o.translated_lines[0].as_str()))
        .collect();
    assert_eq!(seen, vec![(0, "y"), (1, "x"), (2, "first"), (2, "second")]);
}

#[test]
fn outcome_is_accepted_on_equal_counts() {
    assert!(outcome(1, &["a", "b"], &["x", "y"]).is_accepted());
    assert!(outcome(1, &[], &[]).is_accepted());
    assert!(!outcome(1, &["a", "b"], &["x"]).is_accepted());
    assert!(!outcome(1, &["a"], &["x", "y"]).is_accepted());
    assert!(!outcome(1, &["a"], &[]).is_accepted());
}

#[test]
fn order_is_preserved_whatever_the_order_of_arrival() {
    let input = numbered(11);
    let expected: Vec<String> = input.iter().map(|l| format!("[TR]{}", l)).collect();
    for chunk_lines in [1, 2, 3, 11, 20] {
        for arrange in [in_order as fn(&mut Vec<TranslationOutcome>), reversed, shuffled] {
            let (step, batches) = run(input.clone(), chunk_lines, &mut |_, c| echo(c), &arrange);
            assert_eq!(step, Step::Done(expected.clone()));
            assert_eq!(batches.len(), 1);
        }
    }
}

#[test]
fn empty_input_makes_no_backend_call() {
    let mut calls = 0;
    let (step, batches) = run(
        vec![],
        2,
        &mut |_, c| {
            calls += 1;
            echo(c)
        },
        &in_order,
    );
    assert_eq!(step, Step::Done(vec![]));
    assert!(batches.is_empty());
    assert_eq!(calls, 0);
    let (orchestrator, step) = Orchestrator::start(vec![], 0);
    assert_eq!(step, Step::Done(vec![]));
    assert_eq!(orchestrator.total_lines(), 0);
    assert_eq!(orchestrator.depth(), 0);
}

#[test]
fn one_line_too_few_triggers_one_retry_line_by_line() {
    let input = numbered(6);
    let expected: Vec<String> = input.iter().map(|l| format!("[TR]{}", l)).collect();
    let (step, batches) = run(
        input.clone(),
        3,
        &mut |depth, chunk| {
            if depth == 0 && chunk.number == 2 {
                short(chunk)
            } else {
                echo(chunk)
            }
        },
        &reversed,
    );
    assert_eq!(step, Step::Done(expected));
    assert_eq!(batches.len(), 2);
    assert_eq!(batches[0].0, 0);
    assert_eq!(batches[0].1, partition(&input, 3));
    assert_eq!(batches[1].0, 1);
    assert_eq!(
        batches[1].1,
        vec![
            Chunk { number: 1, lines: lines(&["line 4"]) },
            Chunk { number: 2, lines: lines(&["line 5"]) },
            Chunk { number: 3, lines: lines(&["line 6"]) },
        ]
    );
}

#[test]
fn every_mismatching_chunk_is_retried_in_turn() {
    let input = numbered(6);
    let expected: Vec<String> = input.iter().map(|l| format!("[TR]{}", l)).collect();
    let (step, batches) = run(
        input.clone(),
        2,
        &mut |depth, chunk| if depth == 0 && chunk.number != 2 { short(chunk) } else { echo(chunk) },
        &shuffled,
    );
    assert_eq!(step, Step::Done(expected));
    let sent: Vec<(usize, Vec<&str>)> = batches
        .iter()
        .map(|(depth, chunks)| {
            (*depth, chunks.iter().flat_map(|c| c.lines.iter().map(|l| l.as_str())).collect())
        })
        .collect();
    assert_eq!(
        sent,
        vec![
            (0, vec!["line 1", "line 2", "line 3", "line 4", "line 5", "line 6"]),
            (1, vec!["line 1", "line 2"]),
            (1, vec!["line 5", "line 6"]),
        ]
    );
}

#[test]
fn unreadable_answer_counts_as_no_line_and_is_retried() {
    let input = numbered(2);
    let (step, batches) = run(
        input.clone(),
        2,
        &mut |depth, chunk| {
            if depth == 0 {
                TranslationOutcome {
                    number: chunk.number,
                    original_lines: chunk.lines.clone(),
                    translated_lines: vec![],
                }
            } else {
                echo(chunk)
            }
        },
        &in_order,
    );
    assert_eq!(step, Step::Done(lines(&["[TR]line 1", "[TR]line 2"])));
    assert_eq!(batches.len(), 2);
}

#[test]
fn too_many_lines_are_a_mismatch_too() {
    let (step, batches) = run(
        numbered(1),
        5,
        &mut |depth, chunk| {
            let mut outcome = echo(chunk);
            if depth < 2 {
                outcome.translated_lines.push("extra".to_string());
            }
            outcome
        },
        &in_order,
    );
    assert_eq!(step, Step::Done(lines(&["[TR]line 1"])));
    assert_eq!(batches.iter().map(|b| b.0).collect::<Vec<_>>(), vec![0, 1, 2]);
}

#[test]
fn retries_nest_down_to_the_deepest_level() {
    let input = numbered(3);
    let (step, batches) = run(
        input,
        3,
        &mut |depth, chunk| {
            if chunk.lines[0] == "line 2" && depth < 4 || depth == 0 {
                short(chunk)
            } else {
                echo(chunk)
            }
        },
        &reversed,
    );
    assert_eq!(
        step,
        Step::Done(lines(&["[TR]line 1", "[TR]line 2", "[TR]line 3"]))
    );
    let depths: Vec<usize> = batches.iter().map(|b| b.0).collect();
    assert_eq!(depths, vec![0, 1, 2, 3, 4]);
    for (depth, chunks) in &batches[2..] {
        assert!(*depth >= 2);
        assert_eq!(chunks, &vec![Chunk { number: 1, lines: lines(&["line 2"]) }]);
    }
}

#[test]
fn a_backend_that_always_mismatches_ends_the_run() {
    let mut calls = 0;
    let (step, batches) = run(
        numbered(4),
        2,
        &mut |_, chunk| {
            calls += 1;
            short(chunk)
        },
        &shuffled,
    );
    assert_eq!(
        step,
        Step::Fatal(RetryExhausted { number: 1, expected: 1, received: 0 })
    );
    let depths: Vec<usize> = batches.iter().map(|b| b.0).collect();
    assert_eq!(depths, vec![0, 1, 2, 3, 4]);
    assert_eq!(MAX_RETRY_DEPTH, 4);
    assert_eq!(calls, 2 + 2 + 1 + 1 + 1);
}

#[test]
fn one_line_that_always_comes_back_empty_is_sent_five_times() {
    let mut sent = Vec::new();
    let (step, batches) = run(
        lines(&["a"]),
        1,
        &mut |depth, chunk| {
            sent.push((depth, chunk.lines.clone()));
            TranslationOutcome {
                number: chunk.number,
                original_lines: chunk.lines.clone(),
                translated_lines: vec![],
            }
        },
        &in_order,
    );
    assert_eq!(
        step,
        Step::Fatal(RetryExhausted { number: 1, expected: 1, received: 0 })
    );
    assert_eq!(batches.len(), 5);
    assert_eq!(
        sent,
        (0..5).map(|depth| (depth, lines(&["a"]))).collect::<Vec<_>>()
    );
}

#[test]
fn requests_are_bounded_by_the_chunks_and_four_retries_a_line() {
    for count in 1..7usize {
        for chunk_lines in 1..4usize {
            let mut calls = 0;
            let (step, _) = run(
                numbered(count),
                chunk_lines,
                &mut |_, chunk| {
                    calls += 1;
                    short(chunk)
                },
                &in_order,
            );
            assert!(matches!(step, Step::Fatal(_)));
            assert!(calls <= (count + chunk_lines - 1) / chunk_lines + 4 * count);
        }
    }
}

#[test]
fn a_run_is_over_after_its_last_step() {
    let (mut orchestrator, step) = Orchestrator::start(numbered(2), 1);
    assert!(matches!(step, Step::Dispatch(_)));
    assert_eq!(orchestrator.total_lines(), 2);
    assert_eq!(orchestrator.awaited_lines(), 2);
    let step = orchestrator.resume(vec![
        outcome(2, &["line 2"], &["b"]),
        outcome(1, &["line 1"], &["a"]),
    ]);
    assert_eq!(step, Step::Done(lines(&["a", "b"])));
    assert_eq!(orchestrator.depth(), 0);
    assert_eq!(orchestrator.total_lines(), 0);
    assert_eq!(orchestrator.awaited_lines(), 0);
}

#[test]
fn the_count_of_lines_is_kept_through_retries() {
    for count in 1..9 {
        for chunk_lines in 1..4 {
            let input = numbered(count);
            let (step, _) = run(
                input.clone(),
                chunk_lines,
                &mut |depth, chunk| {
                    if (chunk.number + depth) % 2 == 0 && depth < 3 {
                        short(chunk)
                    } else {
                        echo(chunk)
                    }
                },
                &shuffled,
            );
            match step {
                Step::Done(translated) => {
                    assert_eq!(translated.len(), input.len());
                    for (t, l) in translated.iter().zip(input.iter()) {
                        assert_eq!(t, &format!("[TR]{}", l));
                    }
                }
                other => panic!("unexpected step {:?}", other),
            }
        }
    }
}

#[test]
fn a_mismatch_without_original_lines_sends_an_empty_batch() {
    let (mut orchestrator, _) = Orchestrator::start(numbered(1), 1);
    let step = orchestrator.resume(vec![outcome(1, &[], &["stray"])]);
    assert_eq!(step, Step::Dispatch(vec![]));
    assert_eq!(orchestrator.depth(), 1);
    assert_eq!(orchestrator.resume(vec![]), Step::Done(vec![]));
}
