//! Ukrainian cities with bundled FM frequency tables, and the choice of the
//! active one.

use vstd::prelude::*;

use crate::text::{
    ascii_lower_seq, chars_equal_str, chars_of, lemma_lower_trim, lowered_range, trim_bounds, trim_seq,
};

verus! {

/// Ukrainian cities with bundled FM frequency tables.
#[derive(Debug, Clone, Copy, PartialEq, Eq, Structural)]
pub enum City {
    Kyiv,
    Lviv,
    Kharkiv,
    Odesa,
}

pub open spec fn city_id(c: City) -> Seq<char> {
    match c {
        City::Kyiv => "kyiv"@,
        City::Lviv => "lviv"@,
        City::Kharkiv => "kharkiv"@,
        City::Odesa => "odesa"@,
    }
}

pub open spec fn city_display_name(c: City) -> Seq<char> {
    match c {
        City::Kyiv => "Київ"@,
        City::Lviv => "Львів"@,
        City::Kharkiv => "Харків"@,
        City::Odesa => "Одеса"@,
    }
}

/// The city a (trimmed, lower-cased) name or historical spelling refers to.
pub open spec fn city_alias(name: Seq<char>) -> Option<City> {
    if name == "kyiv"@ || name == "kiev"@ {
        Some(City::Kyiv)
    } else if name == "lviv"@ || name == "lvov"@ || name == "lwow"@ {
        Some(City::Lviv)
    } else if name == "kharkiv"@ || name == "kharkov"@ {
        Some(City::Kharkiv)
    } else if name == "odesa"@ || name == "odessa"@ {
        Some(City::Odesa)
    } else {
        None
    }
}

pub open spec fn all_cities() -> Seq<City> {
    seq![City::Kyiv, City::Lviv, City::Kharkiv, City::Odesa]
}

impl City {
    /// Every city, in display order.
    pub fn all() -> (r: [City; 4])
        ensures
            r@ == all_cities(),
    {
        let r = [City::Kyiv, City::Lviv, City::Kharkiv, City::Odesa];
        assert(r@ =~= all_cities());
        r
    }

    pub fn id(self) -> (r: &'static str)
        ensures
            r@ == city_id(self),
    {
        match self {
            City::Kyiv => "kyiv",
            City::Lviv => "lviv",
            City::Kharkiv => "kharkiv",
            City::Odesa => "odesa",
        }
    }

    pub fn display_name(self) -> (r: &'static str)
        ensures
            r@ == city_display_name(self),
    {
        match self {
            City::Kyiv => "Київ",
            City::Lviv => "Львів",
            City::Kharkiv => "Харків",
            City::Odesa => "Одеса",
        }
    }

    /// The city named by `raw`, ignoring surrounding white space and ASCII case.
    pub fn parse(raw: &str) -> (r: Option<City>)
        ensures
            r == city_alias(ascii_lower_seq(trim_seq(raw@))),
    {
        let v = chars_of(raw);
        let (lo, hi) = trim_bounds(&v);
        let name = lowered_range(&v, lo, hi);
        if chars_equal_str(&name, "kyiv") || chars_equal_str(&name, "kiev") {
            Some(City::Kyiv)
        } else if chars_equal_str(&name, "lviv") || chars_equal_str(&name, "lvov")
            || chars_equal_str(&name, "lwow") {
            Some(City::Lviv)
        } else if chars_equal_str(&name, "kharkiv") || chars_equal_str(&name, "kharkov") {
            Some(City::Kharkiv)
        } else if chars_equal_str(&name, "odesa") || chars_equal_str(&name, "odessa") {
            Some(City::Odesa)
        } else {
            None
        }
    }
}

/// Every city's canonical id names it again.
pub proof fn lemma_parse_id(c: City)
    ensures
        city_alias(ascii_lower_seq(trim_seq(city_id(c)))) == Some(c),
{
    reveal_strlit("kyiv");
    reveal_strlit("kiev");
    reveal_strlit("lviv");
    reveal_strlit("lvov");
    reveal_strlit("lwow");
    reveal_strlit("kharkiv");
    reveal_strlit("kharkov");
    reveal_strlit("odesa");
    reveal_strlit("odessa");
    let s = city_id(c);
    assert(trim_seq(s) == s) by {
        assert(!crate::text::is_unicode_whitespace(s[0]));
        assert(!crate::text::is_unicode_whitespace(s.last()));
    }
    assert(ascii_lower_seq(s) =~= s);
}

/// `City::parse` ignores ASCII case: two inputs that differ only in the
/// case of ASCII letters name the same city, or none.
pub proof fn lemma_parse_ignores_case(a: Seq<char>, b: Seq<char>)
    requires
        ascii_lower_seq(a) == ascii_lower_seq(b),
    ensures
        city_alias(ascii_lower_seq(trim_seq(a))) == city_alias(ascii_lower_seq(trim_seq(b))),
{
    lemma_lower_trim(a);
    lemma_lower_trim(b);
}

/// A city's id in any ASCII case (upper case among them) names that city.
pub proof fn lemma_parse_id_any_case(c: City, s: Seq<char>)
    requires
        ascii_lower_seq(s) == city_id(c),
    ensures
        city_alias(ascii_lower_seq(trim_seq(s))) == Some(c),
{
    lemma_parse_id(c);
    reveal_strlit("kyiv");
    reveal_strlit("lviv");
    reveal_strlit("kharkiv");
    reveal_strlit("odesa");
    assert(ascii_lower_seq(city_id(c)) =~= city_id(c));
    lemma_parse_ignores_case(s, city_id(c));
    assert(trim_seq(city_id(c)) == city_id(c));
}

pub struct CityInfo {
    pub id: String,
    pub name: String,
}

/// The selectable cities with their ids and display names, in display order.
pub fn list_cities() -> (r: Vec<CityInfo>)
    ensures
        r.len() == 4,
        forall|i: int|
            0 <= i < 4 ==> (#[trigger] r@[i]).id@ == city_id(all_cities()[i]) && r@[i].name@
                == city_display_name(all_cities()[i]),
{
    let all = City::all();
    let mut r: Vec<CityInfo> = Vec::new();
    let mut i: usize = 0;
    while i < 4
        invariant
            i <= 4,
            all@ == all_cities(),
            r.len() == i,
            forall|k: int|
                0 <= k < i ==> (#[trigger] r@[k]).id@ == city_id(all_cities()[k]) && r@[k].name@
                    == city_display_name(all_cities()[k]),
        decreases 4 - i,
    {
        let city = all[i];
        r.push(CityInfo { id: city.id().to_owned(), name: city.display_name().to_owned() });
        i = i + 1;
    }
    r
}

/// Id of the city used when nothing else decides.
pub fn default_city_id() -> (r: String)
    ensures
        r@ == city_id(City::Kharkiv),
{
    City::Kharkiv.id().to_owned()
}

/// How the active city is settled.
#[derive(Debug, Clone, Copy, PartialEq, Eq, Structural)]
pub enum CityChoice {
    /// Known already (environment override or saved setting).
    Known(City),
    /// Unknown: locate by IP, use that (Kharkiv when it fails) and save it.
    DetectAndSave,
}

/// Active city at start-up: the environment override, else the saved
/// setting, else detection.
pub fn resolve_city(env_city: Option<City>, saved_city: Option<City>) -> (r: CityChoice)
    ensures
        r == match env_city {
            Some(c) => CityChoice::Known(c),
            None => match saved_city {
                Some(c) => CityChoice::Known(c),
                None => CityChoice::DetectAndSave,
            },
        },
{
    match env_city {
        Some(c) => CityChoice::Known(c),
        None => match saved_city {
            Some(c) => CityChoice::Known(c),
            None => CityChoice::DetectAndSave,
        },
    }
}

/// The city kept after IP detection: the one found, or Kharkiv.
pub fn city_from_detection(detected: Option<City>) -> (r: City)
    ensures
        r == match detected {
            Some(c) => c,
            None => City::Kharkiv,
        },
{
    match detected {
        Some(c) => c,
        None => City::Kharkiv,
    }
}

/// Active city without detection: the environment override, else the saved
/// setting, else Kharkiv.
pub fn current_city(env_city: Option<City>, saved_city: Option<City>) -> (r: City)
    ensures
        r == match env_city {
            Some(c) => c,
            None => match saved_city {
                Some(c) => c,
                None => City::Kharkiv,
            },
        },
{
    match env_city {
        Some(c) => c,
        None => match saved_city {
            Some(c) => c,
            None => City::Kharkiv,
        },
    }
}

} // verus!
