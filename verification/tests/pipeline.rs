use curate::accumulate::{Mismatch, Warning};
use curate::dataset::{Dataset, FilterDescriptor, Group, Provenance};
use curate::error::FilterError;
use curate::pipeline::{finish, parse_output, parse_outputs, prepare, script_for, Filterer};
use curate::worker::WorkerRun;

/// A transport format for the tests: one line for the tag, one for each
/// filter, one for each group.
struct Lines;

impl Filterer for Lines {
    type Record = String;

    fn to_python(fragment: &Dataset<String>) -> String {
        let mut text = format!("type {}\n", fragment.typ());
        for filter in &fragment.provenance().applied_filters {
            text.push_str(&format!("filter {}\n", filter.kind));
        }
        for group in fragment.groups() {
            text.push_str(&format!("group {} {}\n", group.key, group.records.join(",")));
        }
        text
    }

    fn from_python(output: &[u8]) -> Result<Dataset<String>, String> {
        let text = String::from_utf8(output.to_vec()).map_err(|e| e.to_string())?;
        let mut typ: Option<String> = None;
        let mut filters: Vec<FilterDescriptor> = Vec::new();
        let mut groups: Vec<(String, Vec<String>)> = Vec::new();
        for line in text.lines() {
            let words: Vec<&str> = line.splitn(3, ' ').collect();
            match words.as_slice() {
                ["type", t] => typ = Some(t.to_string()),
                ["filter", kind] => {
                    filters.push(FilterDescriptor { kind: kind.to_string(), parameters: vec![] })
                }
                ["group", key, records] => groups.push((
                    key.to_string(),
                    records.split(',').filter(|r| !r.is_empty()).map(|r| r.to_string()).collect(),
                )),
                _ => return Err(format!("unexpected line: {line}")),
            }
        }
        let typ = typ.ok_or_else(|| "no type".to_string())?;
        let mut ds = Dataset::new(Provenance { applied_filters: filters }, typ);
        for (key, records) in groups {
            ds.extend_group(key, records);
        }
        Ok(ds)
    }
}

const TEMPLATE: &str = "<<{json}>>";

/// Stands for a worker whose script prints its input back.
fn echo(script: &str) -> WorkerRun {
    let payload = script.strip_prefix("<<").unwrap().strip_suffix(">>").unwrap();
    WorkerRun {
        script: script.to_string(),
        success: true,
        stdout: payload.as_bytes().to_vec(),
        stderr: String::new(),
    }
}

fn names(prefix: &str, count: usize) -> Vec<String> {
    (0..count).map(|i| format!("{prefix}{i}")).collect()
}

fn history() -> Provenance {
    Provenance {
        applied_filters: vec![
            FilterDescriptor { kind: "HydrogenBond".to_string(), parameters: vec![] },
            FilterDescriptor { kind: "RecordStatus".to_string(), parameters: vec![] },
        ],
    }
}

fn sample(counts: &[(&str, usize)]) -> Dataset<String> {
    let mut ds = Dataset::new(history(), "torsion".to_string());
    for (key, count) in counts {
        ds.extend_group(key.to_string(), names(key, *count));
    }
    ds
}

fn filter_with_echo(ds: &Dataset<String>, batch_size: usize) -> (usize, Dataset<String>) {
    let scripts = prepare::<Lines>(ds.clone(), TEMPLATE, batch_size).unwrap();
    let runs: Vec<WorkerRun> = scripts.iter().map(|s| echo(s)).collect();
    let merged = finish::<Lines>(ds.clone(), runs).unwrap();
    assert_eq!(merged.warnings, vec![]);
    (scripts.len(), merged.dataset)
}

#[test]
fn round_trip() {
    let ds = sample(&[("host", 9)]);
    let (workers, got) = filter_with_echo(&ds, 12);
    assert_eq!(workers, 1);
    assert_eq!(got.groups(), ds.groups());
    assert_eq!(got.provenance(), ds.provenance());
    assert_eq!(got.typ(), ds.typ());
}

#[test]
fn round_trip_does_not_depend_on_the_batch_size() {
    let ds = sample(&[("host", 7)]);
    for (batch_size, workers) in [(1, 7), (3, 3), (7, 1), (100, 1)] {
        let (spawned, got) = filter_with_echo(&ds, batch_size);
        assert_eq!(spawned, workers);
        assert_eq!(got, ds);
    }
}

#[test]
fn round_trip_keeps_each_record_under_its_key() {
    let ds = sample(&[("g", 5), ("h", 1), ("k", 4)]);
    for (batch_size, workers) in [(1, 10), (2, 6), (4, 4), (5, 3), (50, 3)] {
        let (spawned, got) = filter_with_echo(&ds, batch_size);
        assert_eq!(spawned, workers);
        assert_eq!(got, ds);
    }
}

#[test]
fn a_group_without_records_is_not_sent_out() {
    let ds = sample(&[("g", 2), ("none", 0), ("h", 1)]);
    let (spawned, got) = filter_with_echo(&ds, 2);
    assert_eq!(spawned, 2);
    assert_eq!(got, sample(&[("g", 2), ("h", 1)]));
}

#[test]
fn one_script_is_made_for_each_batch() {
    let ds = sample(&[("g", 3)]);
    let scripts = prepare::<Lines>(ds, TEMPLATE, 2).unwrap();
    assert_eq!(
        scripts,
        vec![
            "<<type torsion\nfilter HydrogenBond\nfilter RecordStatus\ngroup g g0,g1\n>>"
                .to_string(),
            "<<type torsion\nfilter HydrogenBond\nfilter RecordStatus\ngroup g g2\n>>".to_string(),
        ]
    );
}

#[test]
fn an_empty_dataset_spawns_no_worker_and_comes_back_empty() {
    let ds: Dataset<String> = Dataset::new(history(), "torsion".to_string());
    let scripts = prepare::<Lines>(ds.clone(), TEMPLATE, 12).unwrap();
    assert_eq!(scripts, Vec::<String>::new());
    let merged = finish::<Lines>(ds.clone(), vec![]).unwrap();
    assert_eq!(merged.dataset, ds);
    assert_eq!(merged.dataset.groups(), &Vec::<Group<String>>::new());
    assert_eq!(merged.warnings, vec![]);
}

#[test]
fn a_batch_size_of_zero_is_refused_before_any_script_is_made() {
    let got = prepare::<Lines>(sample(&[("g", 3)]), TEMPLATE, 0);
    assert_eq!(got, Err(FilterError::InvalidBatchSize));
    let empty: Dataset<String> = Dataset::new(history(), "torsion".to_string());
    assert_eq!(prepare::<Lines>(empty, TEMPLATE, 0), Err(FilterError::InvalidBatchSize));
}

#[test]
fn a_failed_worker_fails_the_run() {
    let ds = sample(&[("g", 3)]);
    let scripts = prepare::<Lines>(ds.clone(), TEMPLATE, 1).unwrap();
    let mut runs: Vec<WorkerRun> = scripts.iter().map(|s| echo(s)).collect();
    runs[1].success = false;
    runs[1].stderr = "Traceback (most recent call last): boom".to_string();
    let got = finish::<Lines>(ds, runs);
    let want = FilterError::ProcessFailure {
        script: scripts[1].clone(),
        stderr: "Traceback (most recent call last): boom".to_string(),
    };
    assert_eq!(got, Err(want.clone()));
    let diagnostic = want.diagnostic();
    assert!(diagnostic.contains(&scripts[1]));
    assert!(diagnostic.contains("Traceback (most recent call last): boom"));
}

#[test]
fn a_failed_worker_counts_before_an_unreadable_output() {
    let runs = vec![
        WorkerRun {
            script: "s0".to_string(),
            success: true,
            stdout: b"garbage".to_vec(),
            stderr: String::new(),
        },
        WorkerRun {
            script: "s1".to_string(),
            success: false,
            stdout: vec![],
            stderr: "boom".to_string(),
        },
    ];
    let got = finish::<Lines>(sample(&[("g", 2)]), runs);
    assert_eq!(
        got,
        Err(FilterError::ProcessFailure { script: "s1".to_string(), stderr: "boom".to_string() })
    );
}

#[test]
fn an_unreadable_output_fails_the_run() {
    let runs = vec![WorkerRun {
        script: "s0".to_string(),
        success: true,
        stdout: b"garbage".to_vec(),
        stderr: String::new(),
    }];
    let got = finish::<Lines>(sample(&[("g", 2)]), runs);
    assert_eq!(
        got,
        Err(FilterError::Deserialization { message: "unexpected line: garbage".to_string() })
    );
}

#[test]
fn outputs_are_read_back_in_order() {
    let outputs = vec![b"type a\ngroup g x\n".to_vec(), b"type b\n".to_vec()];
    let got = parse_outputs::<Lines>(outputs).unwrap();
    assert_eq!(got.len(), 2);
    assert_eq!(got[0].typ(), "a");
    let want = vec![Group { key: "g".to_string(), records: vec!["x".to_string()] }];
    assert_eq!(got[0].groups(), &want);
    assert_eq!(got[1].typ(), "b");
}

#[test]
fn a_worker_that_filters_gives_what_it_kept() {
    let ds = sample(&[("g", 4)]);
    let scripts = prepare::<Lines>(ds.clone(), TEMPLATE, 2).unwrap();
    let runs: Vec<WorkerRun> = scripts
        .iter()
        .map(|s| {
            let mut run = echo(s);
            let kept = String::from_utf8(run.stdout).unwrap().replace("g0,", "").replace("g3", "");
            run.stdout = kept.into_bytes();
            run
        })
        .collect();
    let merged = finish::<Lines>(ds, runs).unwrap();
    let mut want = Dataset::new(history(), "torsion".to_string());
    want.extend_group("g".to_string(), vec!["g1".to_string(), "g2".to_string()]);
    assert_eq!(merged.dataset, want);
}

#[test]
fn workers_that_disagree_on_the_type_give_a_warning() {
    let ds = sample(&[("g", 2)]);
    let runs = vec![
        WorkerRun {
            script: "s0".to_string(),
            success: true,
            stdout: b"type torsion\ngroup g g0\n".to_vec(),
            stderr: String::new(),
        },
        WorkerRun {
            script: "s1".to_string(),
            success: true,
            stdout: b"type optimization\ngroup g g1\n".to_vec(),
            stderr: String::new(),
        },
    ];
    let merged = finish::<Lines>(ds, runs).unwrap();
    assert_eq!(merged.warnings, vec![Warning { partial: 1, mismatch: Mismatch::Type }]);
    let (groups, _, typ) = merged.dataset.into_parts();
    assert_eq!(typ, "torsion");
    assert_eq!(
        groups,
        vec![Group { key: "g".to_string(), records: vec!["g0".to_string(), "g1".to_string()] }]
    );
}

#[test]
fn the_script_for_a_batch_holds_the_batch_alone() {
    let batch = Group { key: "g".to_string(), records: vec!["a".to_string(), "b".to_string()] };
    let got = script_for::<Lines>(&history(), &"torsion".to_string(), batch, "print({json})");
    assert_eq!(
        got,
        "print(type torsion\nfilter HydrogenBond\nfilter RecordStatus\ngroup g a,b\n)"
    );
}

#[test]
fn one_output_is_read_back() {
    let got = parse_output::<Lines>(b"type torsion\ngroup g a,b\n").unwrap();
    let mut want = Dataset::new(Provenance { applied_filters: vec![] }, "torsion".to_string());
    want.extend_group("g".to_string(), vec!["a".to_string(), "b".to_string()]);
    assert_eq!(got, want);
}

#[test]
fn an_unreadable_output_gives_a_deserialization_error() {
    assert_eq!(
        parse_output::<Lines>(b"type torsion\nnonsense"),
        Err(FilterError::Deserialization { message: "unexpected line: nonsense".to_string() })
    );
    assert_eq!(
        parse_output::<Lines>(b""),
        Err(FilterError::Deserialization { message: "no type".to_string() })
    );
}

#[test]
fn the_first_unreadable_output_is_the_one_reported() {
    let outputs = vec![b"type a\n".to_vec(), b"first".to_vec(), b"second".to_vec()];
    assert_eq!(
        parse_outputs::<Lines>(outputs),
        Err(FilterError::Deserialization { message: "unexpected line: first".to_string() })
    );
}
