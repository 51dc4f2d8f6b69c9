//! The records of the JSON benchmark: a company and its employees, and the fixed company
//! that the benchmark sends through serialization and back. Their text fields and the
//! list of employees have fixed capacities, which every record keeps as its invariant.

use vstd::prelude::*;
use vstd::utf8::{encode_utf8, is_ascii_chars, is_ascii_chars_encode_utf8};

verus! {

/// The most bytes a name may take.
pub const NAME_CAPACITY: usize = 32;

/// The most bytes an e-mail address may take.
pub const EMAIL_CAPACITY: usize = 64;

/// The most employees a company may have.
pub const EMPLOYEE_CAPACITY: usize = 10;

/// The number of bytes of the UTF-8 encoding of `s`.
pub open spec fn byte_len(s: Seq<char>) -> nat {
    encode_utf8(s).len()
}

/// An employee.
#[derive(Debug)]
pub struct Person {
    name: String,
    age: u32,
    email: String,
    active: bool,
}

/// What an employee record holds.
pub struct PersonView {
    pub name: Seq<char>,
    pub age: u32,
    pub email: Seq<char>,
    pub active: bool,
}

impl PersonView {
    /// The name and the e-mail address are within their capacities.
    pub open spec fn fits(self) -> bool {
        &&& byte_len(self.name) <= NAME_CAPACITY
        &&& byte_len(self.email) <= EMAIL_CAPACITY
    }
}

impl View for Person {
    type V = PersonView;

    closed spec fn view(&self) -> PersonView {
        PersonView { name: self.name@, age: self.age, email: self.email@, active: self.active }
    }
}

impl Person {
    #[verifier::type_invariant]
    spec fn within_capacity(self) -> bool {
        self@.fits()
    }

    /// The employee with these fields, or `None` when the name or the e-mail address is
    /// longer than its capacity.
    pub fn new(name: &str, age: u32, email: &str, active: bool) -> (res: Option<Person>)
        ensures
            res is Some <==> byte_len(name@) <= NAME_CAPACITY && byte_len(email@) <= EMAIL_CAPACITY,
            res matches Some(p) ==> p@ == (PersonView { name: name@, age, email: email@, active }),
    {
        if name.as_bytes().len() <= NAME_CAPACITY && email.as_bytes().len() <= EMAIL_CAPACITY {
            Some(Person { name: name.to_owned(), age, email: email.to_owned(), active })
        } else {
            None
        }
    }

    /// The name.
    pub fn name(&self) -> (r: &str)
        ensures
            r@ == self@.name,
            byte_len(r@) <= NAME_CAPACITY,
    {
        proof {
            use_type_invariant(self);
        }
        self.name.as_str()
    }

    /// The age.
    pub fn age(&self) -> (r: u32)
        ensures
            r == self@.age,
    {
        self.age
    }

    /// The e-mail address.
    pub fn email(&self) -> (r: &str)
        ensures
            r@ == self@.email,
            byte_len(r@) <= EMAIL_CAPACITY,
    {
        proof {
            use_type_invariant(self);
        }
        self.email.as_str()
    }

    /// Whether the employee is active.
    pub fn active(&self) -> (r: bool)
        ensures
            r == self@.active,
    {
        self.active
    }
}

/// A company with its employees.
#[derive(Debug)]
pub struct Company {
    name: String,
    employees: Vec<Person>,
    revenue: u64,
}

/// What a company record holds.
pub struct CompanyView {
    pub name: Seq<char>,
    pub employees: Seq<PersonView>,
    pub revenue: u64,
}

impl View for Company {
    type V = CompanyView;

    closed spec fn view(&self) -> CompanyView {
        CompanyView {
            name: self.name@,
            employees: self.employees@.map_values(|p: Person| p@),
            revenue: self.revenue,
        }
    }
}

impl Company {
    #[verifier::type_invariant]
    spec fn within_capacity(self) -> bool {
        &&& byte_len(self.name@) <= NAME_CAPACITY
        &&& self.employees@.len() <= EMPLOYEE_CAPACITY
    }

    /// The company with this name and revenue and no employees yet, or `None` when the name
    /// is longer than its capacity.
    pub fn new(name: &str, revenue: u64) -> (res: Option<Company>)
        ensures
            res is Some <==> byte_len(name@) <= NAME_CAPACITY,
            res matches Some(c) ==> c@ == (CompanyView { name: name@, employees: Seq::empty(), revenue }),
    {
        if name.as_bytes().len() <= NAME_CAPACITY {
            let c = Company { name: name.to_owned(), employees: Vec::new(), revenue };
            assert(c@.employees =~= Seq::empty());
            Some(c)
        } else {
            None
        }
    }

    /// Adds `p` as the last employee; when the company already has `EMPLOYEE_CAPACITY`
    /// employees it is left unchanged and `p` is handed back.
    pub fn push_employee(&mut self, p: Person) -> (res: Result<(), Person>)
        ensures
            old(self)@.employees.len() < EMPLOYEE_CAPACITY ==> res is Ok && final(self)@ == (CompanyView {
                employees: old(self)@.employees.push(p@),
                ..old(self)@
            }),
            old(self)@.employees.len() >= EMPLOYEE_CAPACITY ==> res == Err::<(), Person>(p) && final(self)@
                == old(self)@,
    {
        proof {
            use_type_invariant(&*self);
        }
        if self.employees.len() < EMPLOYEE_CAPACITY {
            let ghost before = self.employees@;
            let mut list: Vec<Person> = Vec::new();
            std::mem::swap(&mut list, &mut self.employees);
            list.push(p);
            self.employees = list;
            assert(self.employees@.map_values(|q: Person| q@) =~= before.map_values(
                |q: Person| q@,
            ).push(p@));
            Ok(())
        } else {
            Err(p)
        }
    }

    /// The name.
    pub fn name(&self) -> (r: &str)
        ensures
            r@ == self@.name,
            byte_len(r@) <= NAME_CAPACITY,
    {
        proof {
            use_type_invariant(self);
        }
        self.name.as_str()
    }

    /// The employees, in the order they were added.
    pub fn employees(&self) -> (r: &[Person])
        ensures
            r@.map_values(|p: Person| p@) == self@.employees,
            r@.len() <= EMPLOYEE_CAPACITY,
    {
        proof {
            use_type_invariant(self);
        }
        self.employees.as_slice()
    }

    /// The revenue.
    pub fn revenue(&self) -> (r: u64)
        ensures
            r == self@.revenue,
    {
        self.revenue
    }
}

/// An employee of the benchmark's company, from text that is ASCII and within capacity.
fn person(name: &str, age: u32, email: &str, active: bool) -> (p: Person)
    requires
        is_ascii_chars(name@),
        name@.len() <= NAME_CAPACITY,
        is_ascii_chars(email@),
        email@.len() <= EMAIL_CAPACITY,
    ensures
        p@ == (PersonView { name: name@, age, email: email@, active }),
{
    proof {
        is_ascii_chars_encode_utf8(name@);
        is_ascii_chars_encode_utf8(email@);
    }
    Person { name: name.to_owned(), age, email: email.to_owned(), active }
}

/// The company of the benchmark: TechCorp, with five employees and a revenue of one
/// billion.
pub fn create_test_data() -> (c: Company)
    ensures
        c@.name == "TechCorp"@,
        c@.revenue == 1_000_000_000,
        c@.employees.len() == 5,
        c@.employees[0] == (PersonView { name: "Alice Johnson"@, age: 30, email: "alice@example.com"@, active: true }),
        c@.employees[1] == (PersonView { name: "Bob Smith"@, age: 45, email: "bob@example.com"@, active: true }),
        c@.employees[2] == (PersonView { name: "Carol White"@, age: 28, email: "carol@example.com"@, active: false }),
        c@.employees[3] == (PersonView { name: "David Brown"@, age: 52, email: "david@example.com"@, active: true }),
        c@.employees[4] == (PersonView { name: "Eve Davis"@, age: 35, email: "eve@example.com"@, active: true }),
{
    proof {
        reveal_strlit("Alice Johnson");
        reveal_strlit("alice@example.com");
        reveal_strlit("Bob Smith");
        reveal_strlit("bob@example.com");
        reveal_strlit("Carol White");
        reveal_strlit("carol@example.com");
        reveal_strlit("David Brown");
        reveal_strlit("david@example.com");
        reveal_strlit("Eve Davis");
        reveal_strlit("eve@example.com");
        reveal_strlit("TechCorp");
        is_ascii_chars_encode_utf8("TechCorp"@);
    }
    let mut employees: Vec<Person> = Vec::new();
    employees.push(person("Alice Johnson", 30, "alice@example.com", true));
    employees.push(person("Bob Smith", 45, "bob@example.com", true));
    employees.push(person("Carol White", 28, "carol@example.com", false));
    employees.push(person("David Brown", 52, "david@example.com", true));
    employees.push(person("Eve Davis", 35, "eve@example.com", true));
    Company { name: "TechCorp".to_owned(), employees, revenue: 1_000_000_000 }
}

/// Whether two employees hold the same data.
pub fn person_matches(a: &Person, b: &Person) -> (r: bool)
    ensures
        r == (a@ == b@),
{
    a.name == b.name && a.age == b.age && a.email == b.email && a.active == b.active
}

/// Whether two companies hold the same data, employee by employee: the check that a
/// company came back unchanged from its JSON form.
pub fn company_matches(a: &Company, b: &Company) -> (r: bool)
    ensures
        r == (a@ == b@),
{
    if !(a.name == b.name && a.revenue == b.revenue && a.employees.len() == b.employees.len()) {
        assert(a@.name != b@.name || a@.revenue != b@.revenue || a@.employees.len()
            != b@.employees.len());
        return false;
    }
    let n = a.employees.len();
    for i in 0..n
        invariant
            n == a.employees@.len(),
            n == b.employees@.len(),
            a@.name == b@.name,
            a@.revenue == b@.revenue,
            forall|k: int| 0 <= k < i ==> #[trigger] a@.employees[k] == b@.employees[k],
    {
        if !person_matches(&a.employees[i], &b.employees[i]) {
            assert(a@.employees[i as int] != b@.employees[i as int]);
            return false;
        }
    }
    assert(a@.employees =~= b@.employees);
    true
}

} // verus!
