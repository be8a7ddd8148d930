use ptip_ffi::config::{canonical_language_name, default_library_entry_point, find_language, LanguageConfig, Reader};
use ptip_ffi::error::PTIPFFIError;
use ptip_ffi::initialize;
use ptip_ffi::parser::lexer::LexerError;
use ptip_ffi::parser::ParserError;

#[test]
fn registry_holds_python_and_cpp() {
    let registry = initialize();
    assert_eq!(registry.len(), 2);
    assert_eq!(registry[0].name, "Python");
    assert!(registry[0].reader == Reader::Python);
    assert_eq!(registry[1].name, "Cpp");
    assert!(registry[1].reader == Reader::Cpp);
    assert_eq!(canonical_language_name(&registry, "cpp"), "Cpp");
    assert_eq!(canonical_language_name(&registry, "PYTHON"), "Python");
}

#[test]
fn configured_cpp_reader_parses_headers() {
    let registry = initialize();
    let module = registry[1].parse("int add(int a, int b);").unwrap();
    assert_eq!(module.functions.len(), 1);
    assert_eq!(module.functions[0].name, "add");
}

#[test]
fn languages_are_found_by_exact_name() {
    let registry = initialize();
    let found = find_language(&registry, "Python").unwrap();
    assert_eq!(found.name, "Python");
    match find_language(&registry, "python") {
        Err(PTIPFFIError::LanguageNotFound(name)) => assert_eq!(name, "python"),
        _ => panic!("names are matched exactly"),
    }
}

#[test]
fn first_language_of_a_name_is_found() {
    let registry = vec![
        LanguageConfig { name: "Other", reader: Reader::Python },
        LanguageConfig { name: "Python", reader: Reader::Python },
        LanguageConfig { name: "Python", reader: Reader::Python },
    ];
    let found = find_language(&registry, "Python").unwrap();
    assert!(std::ptr::eq(found, &registry[1]));
}

#[test]
fn canonical_names_ignore_ascii_case() {
    let registry = initialize();
    assert_eq!(canonical_language_name(&registry, "PYTHON"), "Python");
    assert_eq!(canonical_language_name(&registry, "pYtHoN"), "Python");
    assert_eq!(canonical_language_name(&registry, "TypeScript"), "TypeScript");
    assert_eq!(canonical_language_name(&registry, "Pythons"), "Pythons");
}

#[test]
fn default_entry_points_by_language() {
    assert_eq!(default_library_entry_point("TypeScript"), Some("index.ts"));
    assert_eq!(default_library_entry_point("  python \n"), Some("index.py"));
    assert_eq!(default_library_entry_point("CPP"), Some("index.hpp"));
    assert_eq!(default_library_entry_point("rust"), None);
}

#[test]
fn configured_language_parses_its_sources() {
    let registry = initialize();
    let module = registry[0].parse("def f(x):\n    return x\n").unwrap();
    assert_eq!(module.functions.len(), 1);
    assert_eq!(module.functions[0].name, "f");
}

#[test]
fn errors_convert_into_library_errors() {
    let from_lexer: PTIPFFIError = LexerError::Eof.into();
    assert!(matches!(from_lexer, PTIPFFIError::LexerError(LexerError::Eof)));
    let from_parser: PTIPFFIError = ParserError::UnexpectedEof.into();
    assert!(matches!(from_parser, PTIPFFIError::ParserError(ParserError::UnexpectedEof)));
}

#[test]
fn canonical_names_are_found() {
    let registry = initialize();
    let canonical = canonical_language_name(&registry, "PyThOn");
    assert_eq!(find_language(&registry, &canonical).unwrap().name, "Python");
}

#[test]
fn configured_language_reads_source_without_definitions_as_empty_module() {
    let registry = initialize();
    let module = registry[0].parse("value = 42\n").unwrap();
    assert_eq!(module.functions.len(), 0);
    assert_eq!(module.types.len(), 0);
}
