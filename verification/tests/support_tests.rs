use riscv_benchmarks::bench::{
    benchmark_elapsed, end_benchmark, exit, verify_and_end_benchmark, verify_data, Bencher,
    VerifyError,
};
use riscv_benchmarks::htif::{self, fail_word, HostFile, HostRequest, SYS_EXIT, SYS_WRITE};
use riscv_benchmarks::matching::{
    benchmark_email_extraction, benchmark_url_extraction, extraction_benchmark,
    Pattern, RegexError, EMAIL_PATTERN, LONG_TEXT, TEST_TEXT, URL_PATTERN,
};
use riscv_benchmarks::records::{
    company_matches, create_test_data, person_matches, Company, Person, EMPLOYEE_CAPACITY,
};
use riscv_benchmarks::sat::{create_test_formula, CNF};

#[test]
fn test_host_file_descriptors() {
    assert_eq!(HostFile::stdout().fd(), 1);
    assert_eq!(HostFile::from_fd(7).fd(), 7);
}

#[test]
fn test_write_and_exit_requests() {
    assert_eq!(htif::write(1, "hello"), HostRequest::Write { fd: 1, len: 5 });
    assert_eq!(HostFile::stdout().write_request("héllo"), HostRequest::Write { fd: 1, len: 6 });
    assert_eq!(htif::exit(3), HostRequest::Exit { code: 3 });
    assert_eq!(exit(), HostRequest::Exit { code: 0 });
}

#[test]
fn test_syscall_frames() {
    let w = HostRequest::Write { fd: 1, len: 4 };
    assert_eq!(w.syscall_frame(0x8000), [SYS_WRITE, 1, 0x8000, 4, 0, 0, 0, 0]);
    let e = HostRequest::Exit { code: 2 };
    assert_eq!(e.syscall_frame(0x8000), [SYS_EXIT, 2, 0, 0, 0, 0, 0, 0]);
}

#[test]
fn test_fail_word() {
    assert_eq!(fail_word(1), 3);
    assert_eq!(fail_word(0), 1);
    assert_eq!(fail_word(-1), u64::MAX);
}

#[test]
fn test_verify_data_outcomes() {
    assert_eq!(verify_data(&[1, 2, 3], &[1, 2, 3]), Ok(()));
    assert_eq!(verify_data(&[1, 5, 3], &[1, 2, 3]), Err(VerifyError::Mismatch { index: 1 }));
    assert_eq!(
        verify_data(&[1, 2], &[1, 2, 3]),
        Err(VerifyError::LengthMismatch { expected_len: 3, actual_len: 2 })
    );
    assert_eq!(
        verify_data(&[1, 2, 3, 4], &[1, 2, 3]),
        Err(VerifyError::LengthMismatch { expected_len: 3, actual_len: 4 })
    );
    let empty: [u8; 0] = [];
    assert_eq!(verify_data(&empty, &empty), Ok(()));
}

#[test]
fn test_elapsed_counters_wrap() {
    assert_eq!(benchmark_elapsed(&[10, usize::MAX], &[15, 1]), vec![5, 2]);
    let end = end_benchmark(&[100], &[250]);
    assert_eq!(end.elapsed, vec![150]);
    assert_eq!(end.verdict, Ok(()));
}

#[test]
fn test_verify_and_end_benchmark() {
    let end = verify_and_end_benchmark(&[1, 2], &[1, 3], &[0, 0], &[4, 8]);
    assert_eq!(end.elapsed, vec![4, 8]);
    assert_eq!(end.verdict, Err(VerifyError::Mismatch { index: 1 }));
}

#[test]
fn test_bencher_runs_one_hundred_times() {
    let mut b = Bencher {};
    let mut calls = 0;
    b.iter(|| {
        calls += 1;
        calls
    });
    assert_eq!(calls, 100);
}

#[test]
fn test_regex_counts() {
    let email = Pattern::new(EMAIL_PATTERN).unwrap();
    assert_eq!(email.count_matches(TEST_TEXT), 3);
    assert_eq!(email.count_matches(LONG_TEXT), 3);
    let url = Pattern::new(URL_PATTERN).unwrap();
    assert_eq!(url.count_matches(TEST_TEXT), 2);
    assert_eq!(url.count_matches(LONG_TEXT), 1);
}

#[test]
fn test_regex_benchmarks() {
    assert_eq!(benchmark_email_extraction(), Ok(600));
    assert_eq!(benchmark_url_extraction(), Ok(300));
    assert_eq!(extraction_benchmark(EMAIL_PATTERN, 0), Ok(0));
}

#[test]
fn test_regex_invalid_pattern() {
    assert!(matches!(Pattern::new("[a-"), Err(RegexError::Build)));
    assert_eq!(extraction_benchmark("(", 5), Err(RegexError::Build));
}

#[test]
fn test_extraction_counts_every_round() {
    let p = Pattern::new(EMAIL_PATTERN).unwrap();
    let per_round = p.count_matches(TEST_TEXT) + p.count_matches(LONG_TEXT);
    assert_eq!(per_round, 6);
    assert_eq!(extraction_benchmark(EMAIL_PATTERN, 7), Ok(7 * per_round));
    assert_eq!(extraction_benchmark(EMAIL_PATTERN, 1), Ok(per_round));
}

fn copy_of(c: &Company, change_age_of: Option<usize>) -> Company {
    let mut d = Company::new(c.name(), c.revenue()).unwrap();
    for (i, p) in c.employees().iter().enumerate() {
        let age = if change_age_of == Some(i) { p.age() + 1 } else { p.age() };
        d.push_employee(Person::new(p.name(), age, p.email(), p.active()).unwrap()).unwrap();
    }
    d
}

#[test]
fn test_company_matches() {
    let a = create_test_data();
    let b = copy_of(&a, None);
    assert!(company_matches(&a, &b));
    let c = copy_of(&a, Some(3));
    assert!(!company_matches(&a, &c));
    let mut d = copy_of(&a, None);
    d.push_employee(Person::new("Frank", 20, "f@x.org", true).unwrap()).unwrap();
    assert!(!company_matches(&a, &d));
    let e = Company::new("TechCorp", 1).unwrap();
    assert!(!company_matches(&a, &e));
}

#[test]
fn test_person_matches() {
    let p = Person::new("Ann", 40, "ann@x.org", true).unwrap();
    let q = Person::new("Ann", 40, "ann@x.org", false).unwrap();
    assert!(person_matches(&p, &p));
    assert!(!person_matches(&p, &q));
}

#[test]
fn test_company_data() {
    let c = create_test_data();
    assert_eq!(c.name(), "TechCorp");
    assert_eq!(c.revenue(), 1_000_000_000);
    assert_eq!(c.employees().len(), 5);
    assert_eq!(c.employees()[0].name(), "Alice Johnson");
    assert_eq!(c.employees()[2].age(), 28);
    assert!(!c.employees()[2].active());
    assert_eq!(c.employees()[4].email(), "eve@example.com");
}

#[test]
fn test_record_capacities() {
    let long_name = "x".repeat(33);
    assert!(Person::new(&"x".repeat(32), 1, "a@b.c", true).is_some());
    assert!(Person::new(&long_name, 1, "a@b.c", true).is_none());
    assert!(Person::new("Ann", 1, &"e".repeat(64), true).is_some());
    assert!(Person::new("Ann", 1, &"e".repeat(65), true).is_none());
    // a name of 16 two-byte characters takes 32 bytes; one more does not fit
    assert!(Person::new(&"\u{e9}".repeat(16), 1, "a@b.c", true).is_some());
    assert!(Person::new(&"\u{e9}".repeat(17), 1, "a@b.c", true).is_none());
    assert!(Company::new(&long_name, 0).is_none());
    let mut c = Company::new("Small", 0).unwrap();
    for i in 0..EMPLOYEE_CAPACITY {
        let p = Person::new(&format!("P{}", i), 20, "p@x.org", true).unwrap();
        assert!(c.push_employee(p).is_ok());
    }
    let extra = Person::new("Extra", 20, "e@x.org", true).unwrap();
    let back = c.push_employee(extra).unwrap_err();
    assert_eq!(back.name(), "Extra");
    assert_eq!(c.employees().len(), EMPLOYEE_CAPACITY);
}

fn satisfies(cnf_clauses: &[Vec<usize>], a: &[Option<bool>]) -> bool {
    cnf_clauses.iter().all(|c| {
        c.iter().any(|&l| a[l / 2] == Some(l % 2 == 0))
    })
}

#[test]
fn test_sat_solves_test_formula() {
    let cnf = create_test_formula();
    let clauses = vec![vec![0, 2, 4], vec![1, 4, 6], vec![2, 5, 6], vec![3, 7, 0]];
    let a = cnf.solve().expect("the formula is satisfiable");
    assert_eq!(a.len(), 4);
    assert!(satisfies(&clauses, &a));
    for c in &clauses {
        assert!(cnf.is_clause_satisfied(c, &a));
    }
}

#[test]
fn test_sat_search_order() {
    let cnf = create_test_formula();
    assert_eq!(cnf.solve(), Some(vec![Some(true), Some(true), Some(true), None]));
}

#[test]
fn test_sat_unit_propagation_forces_values() {
    let mut cnf = CNF::new(3);
    cnf.add_clause(vec![1]);
    cnf.add_clause(vec![0, 2]);
    cnf.add_clause(vec![3, 5]);
    assert_eq!(cnf.solve(), Some(vec![Some(false), Some(true), Some(false)]));
}

#[test]
fn test_sat_unsatisfiable() {
    let mut cnf = CNF::new(1);
    cnf.add_clause(vec![0]);
    cnf.add_clause(vec![1]);
    assert_eq!(cnf.solve(), None);
}

#[test]
fn test_sat_unit_clause_found() {
    let mut cnf = CNF::new(2);
    cnf.add_clause(vec![0, 2]);
    cnf.add_clause(vec![3]);
    assert_eq!(cnf.find_unit_clause(&vec![None, None]), Some(3));
    assert_eq!(cnf.find_unit_clause(&vec![Some(false), Some(false)]), None);
    assert_eq!(cnf.find_unit_clause(&vec![Some(true), None, Some(true)]), Some(3));
    assert_eq!(cnf.num_vars(), 2);
}

#[test]
fn test_find_unit_clause_short_assignment() {
    let mut cnf = CNF::new(10);
    cnf.add_clause(vec![0]);
    assert_eq!(cnf.find_unit_clause(&vec![None]), Some(0));
    assert_eq!(cnf.find_unit_clause(&vec![Some(true)]), None);
}

#[test]
fn test_dpll_longer_assignment() {
    let cnf = create_test_formula();
    let mut a = vec![None; 6];
    assert!(cnf.dpll(&mut a));
    assert_eq!(a.len(), 6);
    let clauses = vec![vec![0, 2, 4], vec![1, 4, 6], vec![2, 5, 6], vec![3, 7, 0]];
    assert!(satisfies(&clauses, &a));
    assert_eq!(&a[4..], &[None, None]);
}
