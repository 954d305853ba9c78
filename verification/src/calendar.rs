//! Which calendar's date data each kind of calendar reads, and the Unicode BCP 47
//! identifiers that name each calendar.

use vstd::prelude::*;

verus! {

/// A kind of calendar, as the date data loaders tell them apart.
#[derive(PartialEq, Eq, Copy, Clone, Debug)]
pub enum AnyCalendarKind {
    Gregorian,
    Buddhist,
    Chinese,
    Japanese,
    JapaneseExtended,
    Indian,
    IslamicObservational,
    IslamicCivil,
    UmmAlQura,
    IslamicTabular,
    Persian,
    Hebrew,
    Coptic,
    Ethiopian,
    EthiopianAmeteAlem,
    Roc,
    /// Any other kind: one with no date data of its own.
    Other,
}

/// A calendar with date data (symbols and length patterns) of its own.
#[derive(PartialEq, Eq, Copy, Clone, Debug)]
pub enum CldrCalendar {
    Gregorian,
    Buddhist,
    Chinese,
    Japanese,
    JapaneseExtended,
    Coptic,
    Indian,
    Persian,
    Hebrew,
    IslamicObservational,
    IslamicCivil,
    UmmAlQura,
    IslamicTabular,
    Ethiopian,
    Roc,
}

/// The calendar whose date data the kind `kind` reads: its own, the Ethiopian one for the
/// Amete Alem era, none for any other kind.
pub open spec fn data_calendar(kind: AnyCalendarKind) -> Option<CldrCalendar> {
    match kind {
        AnyCalendarKind::Gregorian => Some(CldrCalendar::Gregorian),
        AnyCalendarKind::Buddhist => Some(CldrCalendar::Buddhist),
        AnyCalendarKind::Chinese => Some(CldrCalendar::Chinese),
        AnyCalendarKind::Japanese => Some(CldrCalendar::Japanese),
        AnyCalendarKind::JapaneseExtended => Some(CldrCalendar::JapaneseExtended),
        AnyCalendarKind::Indian => Some(CldrCalendar::Indian),
        AnyCalendarKind::IslamicObservational => Some(CldrCalendar::IslamicObservational),
        AnyCalendarKind::IslamicCivil => Some(CldrCalendar::IslamicCivil),
        AnyCalendarKind::UmmAlQura => Some(CldrCalendar::UmmAlQura),
        AnyCalendarKind::IslamicTabular => Some(CldrCalendar::IslamicTabular),
        AnyCalendarKind::Persian => Some(CldrCalendar::Persian),
        AnyCalendarKind::Hebrew => Some(CldrCalendar::Hebrew),
        AnyCalendarKind::Coptic => Some(CldrCalendar::Coptic),
        AnyCalendarKind::Ethiopian => Some(CldrCalendar::Ethiopian),
        AnyCalendarKind::EthiopianAmeteAlem => Some(CldrCalendar::Ethiopian),
        AnyCalendarKind::Roc => Some(CldrCalendar::Roc),
        AnyCalendarKind::Other => None,
    }
}

/// The identifier that names the calendar `cal` when no other is given.
pub open spec fn default_identifier(cal: CldrCalendar) -> Seq<char> {
    match cal {
        CldrCalendar::Gregorian => "gregory"@,
        CldrCalendar::Buddhist => "buddhist"@,
        CldrCalendar::Chinese => "chinese"@,
        CldrCalendar::Japanese => "japanese"@,
        CldrCalendar::JapaneseExtended => "japanext"@,
        CldrCalendar::Coptic => "coptic"@,
        CldrCalendar::Indian => "indian"@,
        CldrCalendar::Persian => "persian"@,
        CldrCalendar::Hebrew => "hebrew"@,
        CldrCalendar::IslamicObservational => "islamic"@,
        CldrCalendar::IslamicCivil => "islamicc"@,
        CldrCalendar::UmmAlQura => "umalqura"@,
        CldrCalendar::IslamicTabular => "tbla"@,
        CldrCalendar::Ethiopian => "ethiopic"@,
        CldrCalendar::Roc => "roc"@,
    }
}

/// Each kind with date data of its own reads a calendar no other kind reads: only the
/// Ethiopian kind and its Amete Alem era share one.
pub proof fn lemma_data_calendar_injective(k1: AnyCalendarKind, k2: AnyCalendarKind)
    ensures
        k1 != k2 && data_calendar(k1) is Some && data_calendar(k1) == data_calendar(k2) ==> (k1
            == AnyCalendarKind::Ethiopian && k2 == AnyCalendarKind::EthiopianAmeteAlem) || (k1
            == AnyCalendarKind::EthiopianAmeteAlem && k2 == AnyCalendarKind::Ethiopian),
{
}

/// Every calendar with date data is read by some kind, and only `Other` reads none.
pub proof fn lemma_data_calendar_onto(cal: CldrCalendar, kind: AnyCalendarKind)
    ensures
        exists|k: AnyCalendarKind| data_calendar(k) == Some(cal),
        data_calendar(kind) is None <==> kind == AnyCalendarKind::Other,
{
    let k = match cal {
        CldrCalendar::Gregorian => AnyCalendarKind::Gregorian,
        CldrCalendar::Buddhist => AnyCalendarKind::Buddhist,
        CldrCalendar::Chinese => AnyCalendarKind::Chinese,
        CldrCalendar::Japanese => AnyCalendarKind::Japanese,
        CldrCalendar::JapaneseExtended => AnyCalendarKind::JapaneseExtended,
        CldrCalendar::Coptic => AnyCalendarKind::Coptic,
        CldrCalendar::Indian => AnyCalendarKind::Indian,
        CldrCalendar::Persian => AnyCalendarKind::Persian,
        CldrCalendar::Hebrew => AnyCalendarKind::Hebrew,
        CldrCalendar::IslamicObservational => AnyCalendarKind::IslamicObservational,
        CldrCalendar::IslamicCivil => AnyCalendarKind::IslamicCivil,
        CldrCalendar::UmmAlQura => AnyCalendarKind::UmmAlQura,
        CldrCalendar::IslamicTabular => AnyCalendarKind::IslamicTabular,
        CldrCalendar::Ethiopian => AnyCalendarKind::Ethiopian,
        CldrCalendar::Roc => AnyCalendarKind::Roc,
    };
    assert(data_calendar(k) == Some(cal));
}

/// Distinct calendars have distinct default identifiers, so an identifier names at most
/// one calendar.
pub proof fn lemma_default_identifier_injective(c1: CldrCalendar, c2: CldrCalendar)
    ensures
        c1 != c2 ==> default_identifier(c1) != default_identifier(c2),
{
    reveal_strlit("gregory");
    reveal_strlit("buddhist");
    reveal_strlit("chinese");
    reveal_strlit("japanese");
    reveal_strlit("japanext");
    reveal_strlit("coptic");
    reveal_strlit("indian");
    reveal_strlit("persian");
    reveal_strlit("hebrew");
    reveal_strlit("islamic");
    reveal_strlit("islamicc");
    reveal_strlit("umalqura");
    reveal_strlit("tbla");
    reveal_strlit("ethiopic");
    reveal_strlit("roc");
    if c1 != c2 && default_identifier(c1) == default_identifier(c2) {
        let a = default_identifier(c1);
        let b = default_identifier(c2);
        assert(a.len() == b.len());
        assert(a[0] == b[0]);
        assert(a[a.len() - 1] == b[b.len() - 1]);
        assert(a[a.len() - 2] == b[b.len() - 2]);
        assert(false);
    }
}

/// The calendar whose date data the kind `kind` reads; for a kind with none, the message
/// "Don't know how to load data for specified calendar".
pub fn data_calendar_for_kind(kind: AnyCalendarKind) -> (res: Result<CldrCalendar, &'static str>)
    ensures
        res is Ok <==> data_calendar(kind) is Some,
        res matches Ok(cal) ==> data_calendar(kind) == Some(cal),
        res matches Err(m) ==> m@ == "Don't know how to load data for specified calendar"@,
{
    match kind {
        AnyCalendarKind::Gregorian => Ok(CldrCalendar::Gregorian),
        AnyCalendarKind::Buddhist => Ok(CldrCalendar::Buddhist),
        AnyCalendarKind::Chinese => Ok(CldrCalendar::Chinese),
        AnyCalendarKind::Japanese => Ok(CldrCalendar::Japanese),
        AnyCalendarKind::JapaneseExtended => Ok(CldrCalendar::JapaneseExtended),
        AnyCalendarKind::Indian => Ok(CldrCalendar::Indian),
        AnyCalendarKind::IslamicObservational => Ok(CldrCalendar::IslamicObservational),
        AnyCalendarKind::IslamicCivil => Ok(CldrCalendar::IslamicCivil),
        AnyCalendarKind::UmmAlQura => Ok(CldrCalendar::UmmAlQura),
        AnyCalendarKind::IslamicTabular => Ok(CldrCalendar::IslamicTabular),
        AnyCalendarKind::Persian => Ok(CldrCalendar::Persian),
        AnyCalendarKind::Hebrew => Ok(CldrCalendar::Hebrew),
        AnyCalendarKind::Coptic => Ok(CldrCalendar::Coptic),
        AnyCalendarKind::Ethiopian => Ok(CldrCalendar::Ethiopian),
        AnyCalendarKind::EthiopianAmeteAlem => Ok(CldrCalendar::Ethiopian),
        AnyCalendarKind::Roc => Ok(CldrCalendar::Roc),
        AnyCalendarKind::Other => Err("Don't know how to load data for specified calendar"),
    }
}

impl CldrCalendar {
    /// The identifier that names this calendar when no other is given.
    pub fn default_bcp_47_identifier(self) -> (res: &'static str)
        ensures
            res@ == default_identifier(self),
    {
        match self {
            CldrCalendar::Gregorian => "gregory",
            CldrCalendar::Buddhist => "buddhist",
            CldrCalendar::Chinese => "chinese",
            CldrCalendar::Japanese => "japanese",
            CldrCalendar::JapaneseExtended => "japanext",
            CldrCalendar::Coptic => "coptic",
            CldrCalendar::Indian => "indian",
            CldrCalendar::Persian => "persian",
            CldrCalendar::Hebrew => "hebrew",
            CldrCalendar::IslamicObservational => "islamic",
            CldrCalendar::IslamicCivil => "islamicc",
            CldrCalendar::UmmAlQura => "umalqura",
            CldrCalendar::IslamicTabular => "tbla",
            CldrCalendar::Ethiopian => "ethiopic",
            CldrCalendar::Roc => "roc",
        }
    }

    /// Whether the identifier `value` may name this calendar: its default one, or for the
    /// Ethiopian calendar also "ethioaa".
    pub fn is_identifier_allowed_for_calendar(self, value: &str) -> (res: bool)
        ensures
            res == (value@ == default_identifier(self) || (self == CldrCalendar::Ethiopian
                && value@ == "ethioaa"@)),
    {
        if same_chars(value, self.default_bcp_47_identifier()) {
            return true;
        }
        match self {
            CldrCalendar::Ethiopian => same_chars(value, "ethioaa"),
            _ => false,
        }
    }
}

/// Whether `a` and `b` hold the same characters.
fn same_chars(a: &str, b: &str) -> (res: bool)
    ensures
        res == (a@ == b@),
{
    let n = a.unicode_len();
    if n != b.unicode_len() {
        return false;
    }
    let mut i: usize = 0;
    while i < n
        invariant
            i <= n,
            n == a@.len(),
            n == b@.len(),
            forall|j: int| 0 <= j < i ==> a@[j] == b@[j],
        decreases n - i,
    {
        if a.get_char(i) != b.get_char(i) {
            return false;
        }
        i += 1;
    }
    proof {
        assert(a@ =~= b@);
    }
    true
}

} // verus!
