use cpp_mangling::mangle;
use cpp_mangling::mangle_pod;
use cpp_mangling::extract_type;
use cpp_mangling::is_const;
use cpp_mangling::is_pod;
use cpp_mangling::is_pointer;
use cpp_mangling::is_reference;
use cpp_mangling::Arg;
use cpp_mangling::Args;
use cpp_mangling::MangleError;

#[test]
fn test_is_pod() {
    assert_eq!(is_pod("int"), true);
}

#[test]
fn test_arg_s_list() {
    let arg = Arg::parse("const int");
    assert_eq!(arg.s_list().len(), 0);
}

#[test]
fn test_args_s_list() {
    let mut args = Args::new();
    args.push(&Arg::parse("const Foo&"));
    args.push(&Arg::parse("const Bar&"));
    args.push(&Arg::parse("Foo*"));
    args.push(&Arg::parse("Foo*"));

    let table = args.s_list();
    println!("{:?}", table);
    assert_eq!(table.len(), 5);
    assert_eq!(table[0], "3Foo");
    assert_eq!(table[1], "RK3Foo");
    assert_eq!(table[2], "3Bar");
    assert_eq!(table[3], "RK3Bar");
    assert_eq!(table[4], "P3Foo");

    let mut args = Args::new();
    args.push(&Arg::parse("int"));
    args.push(&Arg::parse("int*"));
    args.push(&Arg::parse("int*"));

    let table = args.s_list();
    println!("{:?}", table);
    assert_eq!(table.len(), 1);
    assert_eq!(table[0], "Pi");
}

#[test]
fn tset_args_to_string() {
    let mut args = Args::new();
    args.push(&Arg::parse("const Foo&"));
    args.push(&Arg::parse("const Foo&"));
    args.push(&Arg::parse("const Foo"));
    args.push(&Arg::parse("Foo*"));

    let tokens = args.to_string();
    println!("{}", tokens);
    assert_eq!(tokens, "RK3FooS1_S0_PS0_");
}

#[test]
fn test_mangle() {
    let s = "MyClass::my_method()";
    println!("{:?}", mangle(&s));
    assert_eq!(mangle(s).unwrap(), "_ZN7MyClass9my_methodEv");

    assert_eq!(mangle("Foo::bar() const").unwrap(), "_ZNK3Foo3barEv");
    assert_eq!(mangle("Foo::baz(const Bar&)").unwrap(), "_ZN3Foo3bazERK3Bar");
    assert_eq!(mangle("Foo::bar(int, const int*, int&)").unwrap(), "_ZN3Foo3barEiPKiRi");
    assert_eq!(
        mangle("Foo::bar(const int*, const int&, const int*)").unwrap(),
        "_ZN3Foo3barEPKiRS0_S1_"
    );
    assert_eq!(
        mangle("Foo::bar(const int*, const int&, const int)").unwrap(),
        "_ZN3Foo3barEPKiRS0_i"
    );
}

#[test]
fn test_mangle_fn() {
    // The signatures the attribute hook hands to the core.
    assert_eq!(mangle("hello::world()").unwrap(), "_ZN5hello5worldEv");
    assert_eq!(
        mangle("Foo::Bar::baz(const QString&, int)").unwrap(),
        "_ZN3Foo3Bar3bazERK7QStringi"
    );
}

#[test]
fn test_mangle_deterministic() {
    let first = mangle("Foo::bar(const int*, const int&, const int*)");
    let second = mangle("Foo::bar(const int*, const int&, const int*)");
    assert_eq!(first, second);
    let first = mangle("Foo::bar");
    let second = mangle("Foo::bar");
    assert_eq!(first, second);
}

#[test]
fn test_mangle_no_args_ends_in_ev() {
    assert_eq!(mangle("A::b()").unwrap(), "_ZN1A1bEv");
    assert!(mangle("Widget::paint()").unwrap().ends_with("Ev"));
}

#[test]
fn test_mangle_malformed() {
    assert_eq!(mangle("Foo::bar"), Err(MangleError::MalformedSignature));
    assert_eq!(mangle("Foo::bar(int"), Err(MangleError::MalformedSignature));
    assert_eq!(mangle("Foo::bar(int))"), Err(MangleError::MalformedSignature));
    assert_eq!(mangle("Foo::bar(int)x"), Err(MangleError::MalformedSignature));
    // An empty name segment is rejected.
    assert_eq!(mangle("Foo::::bar()"), Err(MangleError::MalformedSignature));
    assert_eq!(mangle("::bar()"), Err(MangleError::MalformedSignature));
    assert_eq!(mangle("()"), Err(MangleError::MalformedSignature));
}

#[test]
fn test_mangle_rejects_reference_to_pointer() {
    assert_eq!(
        mangle("Foo::bar(int*&)"),
        Err(MangleError::UnrecognizedPrefixCombination)
    );
}

#[test]
fn test_mangle_const_method_with_args() {
    assert_eq!(mangle("Foo::bar(int) const").unwrap(), "_ZNK3Foo3barEi");
}

#[test]
fn test_mangle_trims_whitespace() {
    assert_eq!(mangle("Ns :: Cls::m( const int& )").unwrap(), "_ZN2Ns3Cls1mERKi");
}

#[test]
fn test_mangle_named_partial_match() {
    // A named type seen by value, then behind a pointer: the second argument
    // back-references the bare name.
    assert_eq!(mangle("Foo::bar(Baz, Baz*)").unwrap(), "_ZN3Foo3barE3BazPS0_");
}

#[test]
fn test_mangle_two_digit_back_reference() {
    assert_eq!(
        mangle("X::f(A*, B*, C*, D*, E*, F*, F*)").unwrap(),
        "_ZN1X1fEP1AP1BP1CP1DP1EP1FS11_"
    );
}

#[test]
fn test_table_growth_bounded() {
    // Each argument registers at most two entries.
    let raw = ["const A&", "const B&", "const int*", "int", "A*"];
    let mut args = Args::new();
    for piece in raw.iter() {
        args.push(&Arg::parse(piece));
    }
    let table = args.s_list();
    assert!(table.len() <= 2 * raw.len());
    // Entries are unique and keep first-seen order.
    for i in 0..table.len() {
        for j in (i + 1)..table.len() {
            assert_ne!(table[i], table[j]);
        }
    }
}

#[test]
fn test_fundamental_codes() {
    assert_eq!(mangle_pod("int"), "i");
    assert_eq!(mangle_pod("float"), "f");
    assert_eq!(mangle_pod("double"), "d");
    assert_eq!(mangle_pod("char"), "c");
    assert_eq!(is_pod("Foo"), false);
    assert_eq!(is_pod("in"), false);
}

#[test]
fn test_classification() {
    assert_eq!(is_pointer("const int*"), true);
    assert_eq!(is_pointer("const int&"), false);
    assert_eq!(is_reference("const int&"), true);
    assert_eq!(is_reference("int"), false);
    assert_eq!(is_const("const Foo&"), true);
    assert_eq!(is_const("Foo&"), false);
}

#[test]
fn test_extract_type() {
    assert_eq!(extract_type("const Foo&"), "Foo");
    assert_eq!(extract_type("const int*"), "int");
    assert_eq!(extract_type("Foo*"), "Foo");
    assert_eq!(extract_type("int"), "int");
    assert_eq!(extract_type("const double"), "double");
}

#[test]
fn test_plain_indirection_to_fundamental() {
    // A bare single-letter code never enters the table, so `int&` after
    // `int*` is spelled out; a repeated compound back-references exactly.
    assert_eq!(mangle("M::f(int*, int&)").unwrap(), "_ZN1M1fEPiRi");
    assert_eq!(mangle("M::f(int*, int*)").unwrap(), "_ZN1M1fEPiS0_");
}

#[test]
fn test_mangle_all_fundamentals() {
    assert_eq!(mangle("M::f(int, float, double, char)").unwrap(), "_ZN1M1fEifdc");
}

#[test]
fn test_mangle_const_by_value_drops_qualifier() {
    // A by-value const fundamental mangles as if const were absent.
    assert_eq!(mangle("M::f(const int)").unwrap(), "_ZN1M1fEi");
    assert_eq!(mangle("M::f(int)").unwrap(), "_ZN1M1fEi");
}
