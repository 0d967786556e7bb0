use module_graph::{source_type_for, DialectError};

#[test]
fn known_extensions_have_a_dialect() {
    for p in ["a.js", "b.mjs", "c.cjs", "d.jsx", "e.ts", "f.mts", "g.cts", "h.tsx", "types.d.ts"] {
        assert!(source_type_for(p).is_ok(), "{p}");
    }
    assert!(source_type_for("x.ts").unwrap().is_typescript());
    assert!(source_type_for("x.jsx").unwrap().is_javascript());
}

#[test]
fn unknown_extension_is_unsupported() {
    for p in ["notes.txt", "Makefile", "style.css", ""] {
        assert!(matches!(source_type_for(p), Err(DialectError::UnsupportedDialect)), "{p}");
    }
}
