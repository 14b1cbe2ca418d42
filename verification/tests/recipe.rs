use fd_core::output::{copy_name, sidecar_path, xmp_sidecar_content};
use fd_core::recipe::{
    check, dry_run, plan, record, Done, Facts, Op, PlannedAction, Recipe, Report, Settings, Severity, Step,
    RECIPE_VERSION,
};
use fd_core::single::Real32;

/// Files by path, in memory.
struct Disk {
    files: Vec<(String, String)>,
}

impl Disk {
    fn with(names: &[&str]) -> Disk {
        Disk { files: names.iter().map(|n| (format!("/cards/{n}"), "x".to_string())).collect() }
    }

    fn read(&self, path: &str) -> Option<&str> {
        self.files.iter().rev().find(|f| f.0 == path).map(|f| f.1.as_str())
    }

    fn write(&mut self, path: &str, text: &str) {
        self.files.push((path.to_string(), text.to_string()));
    }

    fn facts(&self, r: &Recipe) -> Vec<Facts> {
        r.actions
            .iter()
            .map(|a| {
                let src = a.source(&r.folder);
                let target = match &a.op {
                    Op::Copy { dest, .. } => format!("{dest}/{}", copy_name(&src, 0)),
                    _ => String::new(),
                };
                Facts {
                    source_exists: self.read(&src).is_some(),
                    sidecar_exists: self.read(&sidecar_path(&src)).is_some(),
                    dest_exists: false,
                    dest_is_dir: false,
                    target_exists: self.read(&target).is_some(),
                    target,
                }
            })
            .collect()
    }

    /// Runs the actions of a recipe.
    fn execute(&mut self, r: &Recipe) -> Report {
        let mut report = Report::begin(false);
        for (i, a) in r.actions.iter().enumerate() {
            let step = plan(&r.folder, a);
            let done = match &step {
                Step::Skip => Done::Nothing,
                Step::WriteXmp { sidecar, rating, .. } => {
                    self.write(sidecar, &xmp_sidecar_content(*rating, None));
                    Done::Sidecar(None)
                }
                Step::Copy { image, dest, rating } => match self.read(image).map(|t| t.to_string()) {
                    None => Done::CopyFailed("no such file".to_string()),
                    Some(text) => {
                        let mut n = 0;
                        let mut path = format!("{dest}/{}", copy_name(image, n));
                        while self.read(&path).is_some() {
                            n += 1;
                            path = format!("{dest}/{}", copy_name(image, n));
                        }
                        self.write(&path, &text);
                        if *rating > 0 {
                            self.write(&sidecar_path(&path), &xmp_sidecar_content(*rating, None));
                        }
                        Done::Copied { path, error: None }
                    }
                },
            };
            record(&mut report, i, &a.file, &step, done);
        }
        report
    }
}

fn action(file: &str, op: Op) -> PlannedAction {
    PlannedAction {
        file: file.to_string(),
        op,
        enabled: true,
        burst: 1,
        burst_size: 3,
        rank: 1,
        sharpness: Real32 { bits: 6.3f32.to_bits() },
        roi_sharpness: None,
        track_confidence: None,
        reason: "rank 1/3 by sharpness".to_string(),
    }
}

fn recipe_of(actions: Vec<PlannedAction>) -> Recipe {
    Recipe {
        version: RECIPE_VERSION,
        folder: "/cards".to_string(),
        created_unix: 1_700_000_000,
        settings: Settings { top_n: 2, gap_secs: 60, write_xmp: true, copy_to: None },
        actions,
    }
}

/// The rating travels with the copy: the sidecar lands next to the copy
/// and the source folder stays untouched.
#[test]
fn copy_with_rating_writes_sidecar_in_destination_only() {
    let mut disk = Disk::with(&["a.JPG"]);
    let dest = "/cards/keepers".to_string();
    let r = recipe_of(vec![action("a.JPG", Op::Copy { dest, rating: 4 })]);
    let report = disk.execute(&r);
    assert_eq!(report.failures().len(), 0);
    assert!(disk.read("/cards/keepers/a.JPG").is_some() && disk.read("/cards/keepers/a.xmp").is_some());
    assert!(disk.read("/cards/a.xmp").is_none(), "source folder must stay untouched");
    assert_eq!((report.copied, report.sidecars), (1, 1));
}

#[test]
fn dry_run_writes_nothing() {
    let disk = Disk::with(&["a.JPG"]);
    let r = recipe_of(vec![action("a.JPG", Op::WriteXmp { rating: 3 })]);
    let report = dry_run(&r);
    assert!(report.dry_run);
    assert_eq!(report.sidecars, 1, "dry run still reports the intent");
    assert!(disk.read("/cards/a.xmp").is_none());
    assert_eq!(report.outcomes.len(), 1);
    assert_eq!(report.outcomes[0].detail, "sidecar /cards/a.xmp rating 3");
    assert_eq!(report.summary(), "would write 1 sidecars, 0 copies (0 skipped)");
}

#[test]
fn execute_writes_only_what_was_planned() {
    let mut disk = Disk::with(&["a.JPG", "b.JPG"]);
    let r = recipe_of(vec![action("a.JPG", Op::WriteXmp { rating: 4 }), action("b.JPG", Op::Skip)]);
    let report = disk.execute(&r);
    assert_eq!(report.sidecars, 1);
    assert_eq!(report.skipped, 1);
    assert_eq!(report.failures().len(), 0);
    assert!(disk.read("/cards/b.xmp").is_none(), "skips must stay untouched");
    assert!(disk.read("/cards/a.xmp").unwrap().contains("xmp:Rating=\"4\""));
}

#[test]
fn disabled_actions_do_not_run() {
    let mut disk = Disk::with(&["a.JPG"]);
    let mut r = recipe_of(vec![action("a.JPG", Op::WriteXmp { rating: 3 })]);
    r.actions[0].enabled = false;
    let report = disk.execute(&r);
    assert_eq!(report.sidecars, 0);
    assert!(disk.read("/cards/a.xmp").is_none());
    assert_eq!(r.active_count(), 0);
}

#[test]
fn check_flags_missing_source_and_sidecar_overwrite() {
    let disk = Disk {
        files: vec![
            ("/cards/a.JPG".to_string(), "x".to_string()),
            ("/cards/a.xmp".to_string(), "old".to_string()),
        ],
    };
    let r = recipe_of(vec![
        action("a.JPG", Op::WriteXmp { rating: 3 }),
        action("gone.JPG", Op::WriteXmp { rating: 3 }),
    ]);
    let issues = check(&r, &disk.facts(&r));
    assert_eq!(issues.len(), 2);
    assert_eq!(issues[0].severity, Severity::Warning);
    assert!(issues[0].message.contains("existing sidecar"));
    assert_eq!(issues[1].severity, Severity::Error);
    assert!(issues[1].message.contains("source missing"));
}

#[test]
fn check_flags_collisions() {
    let copy = |f: &str| action(f, Op::Copy { dest: "/keep".to_string(), rating: 0 });
    let r = recipe_of(vec![copy("a.JPG"), copy("sub/a.JPG"), copy("b.JPG")]);
    let fact = |target: &str, taken: bool| Facts {
        source_exists: true,
        sidecar_exists: false,
        dest_exists: true,
        dest_is_dir: true,
        target: target.to_string(),
        target_exists: taken,
    };
    let facts = vec![fact("/keep/a.JPG", false), fact("/keep/a.JPG", false), fact("/keep/b.JPG", true)];
    let issues = check(&r, &facts);
    let told: Vec<(usize, &str)> = issues.iter().map(|i| (i.action, i.message.as_str())).collect();
    assert_eq!(
        told,
        vec![
            (1, "same destination name as action 1; copy will be suffixed"),
            (2, "name already in destination; copy will be suffixed"),
        ]
    );
    let mut blocked = fact("/keep/a.JPG", false);
    blocked.dest_is_dir = false;
    let r = recipe_of(vec![copy("a.JPG")]);
    let issues = check(&r, &vec![blocked]);
    assert_eq!(issues[0].message, "destination is not a folder: /keep");
    assert_eq!(issues[0].severity, Severity::Error);
}

#[test]
fn reports_tell_what_failed() {
    let mut disk = Disk::with(&[]);
    let r = recipe_of(vec![
        action("a.JPG", Op::Copy { dest: "/keep".to_string(), rating: 0 }),
        action("b.JPG", Op::Skip),
    ]);
    let report = disk.execute(&r);
    assert_eq!(report.failures(), vec![0]);
    assert_eq!(report.outcomes[0].error.as_deref(), Some("no such file"));
    assert_eq!(report.summary(), "wrote 0 sidecars, 0 copies (1 skipped) — 1 failed");
    let mut report = Report::begin(false);
    let step = plan("/cards", &action("a.JPG", Op::WriteXmp { rating: 1 }));
    record(&mut report, 0, "a.JPG", &step, Done::Sidecar(Some("disk full".to_string())));
    assert_eq!((report.sidecars, report.failures()), (0, vec![0]));
    let step = plan("/cards", &action("a.JPG", Op::Copy { dest: "/keep".to_string(), rating: 2 }));
    let done = Done::Copied { path: "/keep/a.JPG".to_string(), error: Some("disk full".to_string()) };
    record(&mut report, 1, "a.JPG", &step, done);
    assert_eq!((report.copied, report.sidecars), (1, 0));
    assert_eq!(report.outcomes[1].detail, "copied to /keep/a.JPG");
}

/// A dry run reports the same set of actions the real run performs.
#[test]
fn dry_runs_foretell_the_real_run() {
    let mut disk = Disk::with(&["a.JPG", "b.JPG", "c.JPG"]);
    let r = recipe_of(vec![
        action("a.JPG", Op::WriteXmp { rating: 3 }),
        action("b.JPG", Op::Copy { dest: "/keep".to_string(), rating: 5 }),
        action("c.JPG", Op::Skip),
        action("a.JPG", Op::Copy { dest: "/keep".to_string(), rating: 0 }),
    ]);
    let told = dry_run(&r);
    let done = disk.execute(&r);
    assert_eq!((told.sidecars, told.copied, told.skipped), (done.sidecars, done.copied, done.skipped));
    let listed = |r: &Report| -> Vec<(usize, String)> {
        r.outcomes.iter().map(|o| (o.action, o.file.clone())).collect()
    };
    assert_eq!(listed(&told), listed(&done));
    // what fails is listed too
    let failed = Disk::with(&[]).execute(&r);
    assert_eq!(listed(&told), listed(&failed));
    assert_eq!(told.skipped + told.outcomes.len(), r.actions.len());
}

#[test]
fn labels_of_operations() {
    assert_eq!(action("a", Op::WriteXmp { rating: 3 }).op_label(), "rate 3★");
    let copy = |rating: u8| Op::Copy { dest: "/keep".to_string(), rating };
    assert_eq!(action("a", copy(0)).op_label(), "copy to /keep");
    assert_eq!(action("a", copy(4)).op_label(), "copy to /keep + rate 4★");
    assert_eq!(action("a", Op::Skip).op_label(), "skip");
    assert_eq!(action("x/a.JPG", Op::Skip).source("/cards"), "/cards/x/a.JPG");
    assert_eq!(action("x/a.JPG", Op::Skip).source("/cards/"), "/cards/x/a.JPG");
    assert_eq!(action("a.JPG", Op::Skip).source("/"), "/a.JPG");
    let r = recipe_of(vec![action("a", Op::Skip), action("b", copy(0))]);
    assert_eq!(r.active(), vec![1]);
}

#[test]
fn targets_are_compared_by_their_components() {
    let to = |target: &str| Facts {
        source_exists: true,
        sidecar_exists: false,
        dest_exists: true,
        dest_is_dir: true,
        target: target.to_string(),
        target_exists: false,
    };
    let shared = |a: &str, b: &str| {
        let copy = |f: &str| action(f, Op::Copy { dest: "/k".to_string(), rating: 0 });
        let issues = check(&recipe_of(vec![copy("x"), copy("y")]), &vec![to(a), to(b)]);
        issues.iter().map(|i| i.action).collect::<Vec<usize>>() == vec![1]
    };
    assert!(shared("/k/a.JPG", "/k/./a.JPG"));
    assert!(shared("/k/a.JPG", "/k//a.JPG"));
    assert!(shared("C:\\k\\a.JPG", "C:\\k\\a.JPG"));
    assert!(!shared("/k/a.JPG", "k/a.JPG"));
    assert!(!shared("/k/a.JPG", "/k/b.JPG"));
    assert!(!shared("/k/a.JPG", "/k/x/../a.JPG"));
    assert!(!shared("C:\\k\\a.JPG", "D:\\k\\a.JPG"));
}

#[test]
fn sources_lie_in_any_folder() {
    assert_eq!(action("a.JPG", Op::Skip).source("/media/disk:1"), "/media/disk:1/a.JPG");
    let s = action("x\\a.JPG", Op::Skip).source("C:\\cards");
    assert!(s == "C:\\cards\\x\\a.JPG" || s == "C:\\cards/x\\a.JPG");
    assert_eq!(action("a.JPG", Op::Skip).source(""), "a.JPG");
}
