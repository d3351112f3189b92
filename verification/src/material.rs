use vstd::prelude::*;
use vstd::string::StringSliceAdditionalSpecFns;

verus! {

/// A glass of the built-in catalog.
#[derive(Clone, Copy, Debug, PartialEq, Eq)]
pub enum Glass {
    /// N-BK7, the borosilicate crown.
    NBk7,
    /// N-SF11, a dense flint.
    NSf11,
    /// F2, a flint.
    F2,
    /// N-SF5, a dense flint.
    NSf5,
    /// N-BAF10, a barium flint.
    NBaf10,
    /// Fused silica.
    FusedSilica,
}

/// Whether a byte is an ASCII letter or digit.
pub open spec fn is_alnum(b: u8) -> bool {
    (48 <= b <= 57) || (65 <= b <= 90) || (97 <= b <= 122)
}

/// A byte with an ASCII lower-case letter made upper-case.
pub open spec fn upper(b: u8) -> u8 {
    if 97 <= b <= 122 {
        (b - 32) as u8
    } else {
        b
    }
}

/// The key a catalog name is looked up by: its ASCII letters and digits, upper-cased, and
/// nothing else — so case does not matter and a hyphen or a space is optional.
pub open spec fn catalog_key(name: Seq<u8>) -> Seq<u8>
    decreases name.len(),
{
    if name.len() == 0 {
        Seq::empty()
    } else {
        let rest = catalog_key(name.drop_last());
        if is_alnum(name.last()) {
            rest.push(upper(name.last()))
        } else {
            rest
        }
    }
}

/// Case does not matter to a catalog key: upper-casing a name first gives the same key.
pub proof fn lemma_key_ignores_case(name: Seq<u8>)
    ensures
        catalog_key(Seq::new(name.len(), |i: int| upper(name[i]))) == catalog_key(name),
    decreases name.len(),
{
    let shouted = Seq::new(name.len(), |i: int| upper(name[i]));
    if name.len() > 0 {
        assert(shouted.drop_last() =~= Seq::new(name.drop_last().len(), |i: int| upper(name.drop_last()[i])));
        lemma_key_ignores_case(name.drop_last());
    }
}

/// A hyphen, a space or any other byte that is not a letter or a digit is optional: taking it
/// out of a name leaves its key as it was.
pub proof fn lemma_key_ignores_punctuation(before: Seq<u8>, mark: u8, after: Seq<u8>)
    requires
        !is_alnum(mark),
    ensures
        catalog_key(before + seq![mark] + after) == catalog_key(before + after),
    decreases after.len(),
{
    if after.len() == 0 {
        assert((before + seq![mark] + after).drop_last() =~= before);
        assert(before + after =~= before);
    } else {
        assert((before + seq![mark] + after).drop_last() =~= before + seq![mark] + after.drop_last());
        assert((before + after).drop_last() =~= before + after.drop_last());
        lemma_key_ignores_punctuation(before, mark, after.drop_last());
    }
}

/// The glass a key names, if any.
pub open spec fn glass_for_key(key: Seq<u8>) -> Option<Glass> {
    if key == seq![78u8, 66u8, 75u8, 55u8] || key == seq![66u8, 75u8, 55u8] {
        Some(Glass::NBk7)
    } else if key == seq![78u8, 83u8, 70u8, 49u8, 49u8] || key == seq![83u8, 70u8, 49u8, 49u8] {
        Some(Glass::NSf11)
    } else if key == seq![70u8, 50u8] {
        Some(Glass::F2)
    } else if key == seq![78u8, 83u8, 70u8, 53u8] || key == seq![83u8, 70u8, 53u8] {
        Some(Glass::NSf5)
    } else if key == seq![78u8, 66u8, 65u8, 70u8, 49u8, 48u8] || key == seq![66u8, 65u8, 70u8, 49u8, 48u8] {
        Some(Glass::NBaf10)
    } else if key == seq![70u8, 85u8, 83u8, 69u8, 68u8, 83u8, 73u8, 76u8, 73u8, 67u8, 65u8]
        || key == seq![83u8, 73u8, 76u8, 73u8, 67u8, 65u8] || key == seq![83u8, 73u8, 79u8, 50u8]
        || key == seq![70u8, 83u8, 73u8, 76u8, 73u8, 67u8, 65u8] {
        Some(Glass::FusedSilica)
    } else {
        None
    }
}

/// Whether `key` spells exactly `want`. (Keys are compared as ASCII codes.)
fn key_is(key: &Vec<u8>, want: &[u8]) -> (same: bool)
    ensures
        same == (key@ == want@),
{
    if key.len() != want.len() {
        return false;
    }
    let mut i: usize = 0;
    while i < key.len()
        invariant
            key@.len() == want@.len(),
            i <= key@.len(),
            forall|s: int| 0 <= s < i ==> key@[s] == want@[s],
        decreases key@.len() - i,
    {
        if key[i] != want[i] {
            return false;
        }
        i += 1;
    }
    assert(key@ =~= want@);
    true
}

/// The lookup key of a catalog name: its ASCII letters and digits, upper-cased.
pub fn catalog_key_of(name: &str) -> (key: Vec<u8>)
    ensures
        key@ == catalog_key(name.spec_bytes()),
{
    let bytes = name.as_bytes();
    let mut key: Vec<u8> = Vec::new();
    for i in 0..bytes.len()
        invariant
            bytes@ == name.spec_bytes(),
            key@ == catalog_key(bytes@.take(i as int)),
    {
        let b = bytes[i];
        proof {
            assert(bytes@.take(i + 1).drop_last() =~= bytes@.take(i as int));
        }
        if (48u8 <= b && b <= 57u8) || (65u8 <= b && b <= 90u8) || (97u8 <= b && b <= 122u8) {
            let u = if 97u8 <= b && b <= 122u8 { b - 32 } else { b };
            key.push(u);
        }
    }
    assert(bytes@.take(bytes@.len() as int) =~= bytes@);
    key
}

/// The glasses of the catalog, in the order their names are listed.
pub open spec fn catalog_glass(i: int) -> Glass {
    if i == 0 {
        Glass::NBk7
    } else if i == 1 {
        Glass::NSf11
    } else if i == 2 {
        Glass::F2
    } else if i == 3 {
        Glass::NSf5
    } else if i == 4 {
        Glass::NBaf10
    } else {
        Glass::FusedSilica
    }
}

/// The catalog name of the `i`-th glass of the catalog, as ASCII bytes: "N-BK7", "N-SF11",
/// "F2", "N-SF5", "N-BAF10", "Fused Silica".
pub open spec fn catalog_name(i: int) -> Seq<u8> {
    if i == 0 {
        seq![78u8, 45u8, 66u8, 75u8, 55u8]
    } else if i == 1 {
        seq![78u8, 45u8, 83u8, 70u8, 49u8, 49u8]
    } else if i == 2 {
        seq![70u8, 50u8]
    } else if i == 3 {
        seq![78u8, 45u8, 83u8, 70u8, 53u8]
    } else if i == 4 {
        seq![78u8, 45u8, 66u8, 65u8, 70u8, 49u8, 48u8]
    } else {
        seq![70u8, 117u8, 115u8, 101u8, 100u8, 32u8, 83u8, 105u8, 108u8, 105u8, 99u8, 97u8]
    }
}

/// The key of each catalog name, and of the same name without a leading "N-".
proof fn lemma_catalog_keys()
    ensures
        catalog_key(catalog_name(0)) == seq![78u8, 66u8, 75u8, 55u8],
        catalog_key(catalog_name(0).subrange(2, 5)) == seq![66u8, 75u8, 55u8],
        catalog_key(catalog_name(1)) == seq![78u8, 83u8, 70u8, 49u8, 49u8],
        catalog_key(catalog_name(1).subrange(2, 6)) == seq![83u8, 70u8, 49u8, 49u8],
        catalog_key(catalog_name(2)) == seq![70u8, 50u8],
        catalog_key(catalog_name(3)) == seq![78u8, 83u8, 70u8, 53u8],
        catalog_key(catalog_name(3).subrange(2, 5)) == seq![83u8, 70u8, 53u8],
        catalog_key(catalog_name(4)) == seq![78u8, 66u8, 65u8, 70u8, 49u8, 48u8],
        catalog_key(catalog_name(4).subrange(2, 7)) == seq![66u8, 65u8, 70u8, 49u8, 48u8],
        catalog_key(catalog_name(5)) == seq![70u8, 85u8, 83u8, 69u8, 68u8, 83u8, 73u8, 76u8, 73u8, 67u8, 65u8],
        catalog_key(seq![115u8, 105u8, 108u8, 105u8, 99u8, 97u8]) == seq![83u8, 73u8, 76u8, 73u8, 67u8, 65u8],
        catalog_key(seq![83u8, 105u8, 79u8, 50u8]) == seq![83u8, 73u8, 79u8, 50u8],
        catalog_key(seq![70u8, 45u8, 115u8, 105u8, 108u8, 105u8, 99u8, 97u8]) == seq![70u8, 83u8, 73u8, 76u8, 73u8, 67u8, 65u8],
{
    reveal_with_fuel(catalog_key, 13);
    assert(catalog_key(catalog_name(0)) =~= seq![78u8, 66u8, 75u8, 55u8]);
    assert(catalog_key(catalog_name(0).subrange(2, 5)) =~= seq![66u8, 75u8, 55u8]);
    assert(catalog_key(catalog_name(1)) =~= seq![78u8, 83u8, 70u8, 49u8, 49u8]);
    assert(catalog_key(catalog_name(1).subrange(2, 6)) =~= seq![83u8, 70u8, 49u8, 49u8]);
    assert(catalog_key(catalog_name(2)) =~= seq![70u8, 50u8]);
    assert(catalog_key(catalog_name(3)) =~= seq![78u8, 83u8, 70u8, 53u8]);
    assert(catalog_key(catalog_name(3).subrange(2, 5)) =~= seq![83u8, 70u8, 53u8]);
    assert(catalog_key(catalog_name(4)) =~= seq![78u8, 66u8, 65u8, 70u8, 49u8, 48u8]);
    assert(catalog_key(catalog_name(4).subrange(2, 7)) =~= seq![66u8, 65u8, 70u8, 49u8, 48u8]);
    assert(catalog_key(catalog_name(5)) =~= seq![70u8, 85u8, 83u8, 69u8, 68u8, 83u8, 73u8, 76u8, 73u8, 67u8, 65u8]);
    assert(catalog_key(seq![115u8, 105u8, 108u8, 105u8, 99u8, 97u8]) =~= seq![83u8, 73u8, 76u8, 73u8, 67u8, 65u8]);
    assert(catalog_key(seq![83u8, 105u8, 79u8, 50u8]) =~= seq![83u8, 73u8, 79u8, 50u8]);
    assert(catalog_key(seq![70u8, 45u8, 115u8, 105u8, 108u8, 105u8, 99u8, 97u8]) =~= seq![70u8, 83u8, 73u8, 76u8, 73u8, 67u8, 65u8]);
}

/// Every glass answers to its catalog name, and a Schott "N-" glass also to its short name —
/// the same name without the "N-" (so "SF11" is N-SF11 and "BK7" is N-BK7). Fused silica
/// also answers to "silica", "SiO2" and "F-silica".
pub proof fn lemma_a_glass_answers_to_its_short_name(i: int)
    requires
        0 <= i < 6,
    ensures
        glass_for_key(catalog_key(catalog_name(i))) == Some(catalog_glass(i)),
        catalog_name(i).len() > 2 && catalog_name(i)[0] == 78u8 && catalog_name(i)[1] == 45u8 ==> glass_for_key(
            catalog_key(catalog_name(i).subrange(2, catalog_name(i).len() as int)),
        ) == Some(catalog_glass(i)),
        glass_for_key(catalog_key(seq![115u8, 105u8, 108u8, 105u8, 99u8, 97u8])) == Some(Glass::FusedSilica),
        glass_for_key(catalog_key(seq![83u8, 105u8, 79u8, 50u8])) == Some(Glass::FusedSilica),
        glass_for_key(catalog_key(seq![70u8, 45u8, 115u8, 105u8, 108u8, 105u8, 99u8, 97u8])) == Some(
            Glass::FusedSilica,
        ),
{
    lemma_catalog_keys();
}


/// An ASCII literal's bytes are its characters, one byte each.
proof fn lemma_ascii_bytes(s: &str)
    requires
        vstd::string::is_ascii(s),
    ensures
        s.spec_bytes() =~= Seq::new(s@.len(), |i: int| s@[i] as u8),
{
    vstd::string::is_ascii_spec_bytes(s);
}

impl Glass {
    /// Names of all built-in catalog glasses. Each of them looks up the glass it names.
    pub fn catalog_names() -> (names: Vec<&'static str>)
        ensures
            names@.len() == 6,
            names@[0]@ == "N-BK7"@,
            names@[1]@ == "N-SF11"@,
            names@[2]@ == "F2"@,
            names@[3]@ == "N-SF5"@,
            names@[4]@ == "N-BAF10"@,
            names@[5]@ == "Fused Silica"@,
            forall|i: int| 0 <= i < 6 ==> (#[trigger] names@[i]).spec_bytes() == catalog_name(i),
            forall|i: int|
                0 <= i < 6 ==> glass_for_key(catalog_key(#[trigger] names@[i].spec_bytes())) == Some(
                    catalog_glass(i),
                ),
    {
        let mut names: Vec<&'static str> = Vec::new();
        let a = "N-BK7";
        let b = "N-SF11";
        let c = "F2";
        let d = "N-SF5";
        let e = "N-BAF10";
        let f = "Fused Silica";
        proof {
            reveal_strlit("N-BK7");
            reveal_strlit("N-SF11");
            reveal_strlit("F2");
            reveal_strlit("N-SF5");
            reveal_strlit("N-BAF10");
            reveal_strlit("Fused Silica");
            lemma_ascii_bytes(a);
            lemma_ascii_bytes(b);
            lemma_ascii_bytes(c);
            lemma_ascii_bytes(d);
            lemma_ascii_bytes(e);
            lemma_ascii_bytes(f);
            reveal_with_fuel(catalog_key, 13);
            assert(catalog_key(a.spec_bytes()) =~= seq![78u8, 66u8, 75u8, 55u8]);
            assert(catalog_key(b.spec_bytes()) =~= seq![78u8, 83u8, 70u8, 49u8, 49u8]);
            assert(catalog_key(c.spec_bytes()) =~= seq![70u8, 50u8]);
            assert(catalog_key(d.spec_bytes()) =~= seq![78u8, 83u8, 70u8, 53u8]);
            assert(catalog_key(e.spec_bytes()) =~= seq![78u8, 66u8, 65u8, 70u8, 49u8, 48u8]);
            assert(catalog_key(f.spec_bytes()) =~= seq![70u8, 85u8, 83u8, 69u8, 68u8, 83u8, 73u8, 76u8, 73u8, 67u8, 65u8]);
            assert(a.spec_bytes() =~= catalog_name(0));
            assert(b.spec_bytes() =~= catalog_name(1));
            assert(c.spec_bytes() =~= catalog_name(2));
            assert(d.spec_bytes() =~= catalog_name(3));
            assert(e.spec_bytes() =~= catalog_name(4));
            assert(f.spec_bytes() =~= catalog_name(5));
        }
        names.push(a);
        names.push(b);
        names.push(c);
        names.push(d);
        names.push(e);
        names.push(f);
        names
    }

    /// Look up a glass by catalog name: case-insensitive, with hyphens and spaces optional.
    pub fn from_catalog(name: &str) -> (g: Option<Glass>)
        ensures
            g == glass_for_key(catalog_key(name.spec_bytes())),
    {
        let key = catalog_key_of(name);
        if key_is(&key, &[78u8, 66u8, 75u8, 55u8]) || key_is(&key, &[66u8, 75u8, 55u8]) {
            Some(Glass::NBk7)
        } else if key_is(&key, &[78u8, 83u8, 70u8, 49u8, 49u8]) || key_is(&key, &[83u8, 70u8, 49u8, 49u8]) {
            Some(Glass::NSf11)
        } else if key_is(&key, &[70u8, 50u8]) {
            Some(Glass::F2)
        } else if key_is(&key, &[78u8, 83u8, 70u8, 53u8]) || key_is(&key, &[83u8, 70u8, 53u8]) {
            Some(Glass::NSf5)
        } else if key_is(&key, &[78u8, 66u8, 65u8, 70u8, 49u8, 48u8]) || key_is(
            &key,
            &[66u8, 65u8, 70u8, 49u8, 48u8],
        ) {
            Some(Glass::NBaf10)
        } else if key_is(&key, &[70u8, 85u8, 83u8, 69u8, 68u8, 83u8, 73u8, 76u8, 73u8, 67u8, 65u8])
            || key_is(&key, &[83u8, 73u8, 76u8, 73u8, 67u8, 65u8]) || key_is(
            &key,
            &[83u8, 73u8, 79u8, 50u8],
        ) || key_is(&key, &[70u8, 83u8, 73u8, 76u8, 73u8, 67u8, 65u8]) {
            Some(Glass::FusedSilica)
        } else {
            None
        }
    }
}

} // verus!
