use vstd::prelude::*;
use vstd::pervasive::VecAdditionalExecFns;
use vstd::string::{StrSliceExecFns, StringExecFns};
use crate::strutil::{
    contains_seq, contains_sub, is_ascii_digit, replace_all, replace_seq, str_eq, trim_blank,
    trim_seq,
};
use crate::types::{LocationMapping, LocationMappingView};

verus! {

/// Manages the mapping of raw location names to normalized ones and the
/// campus geocoding blocks of the calendar text.
pub struct LocationManager {
    mappings: Vec<LocationMapping>,
}

pub open spec fn mapping_views(ms: Seq<LocationMapping>) -> Seq<LocationMappingView> {
    ms.map_values(|m: LocationMapping| m@)
}

/// The first mapping whose original name equals `key`.
pub open spec fn find_exact(vs: Seq<LocationMappingView>, key: Seq<char>) -> Option<
    LocationMappingView,
>
    decreases vs.len(),
{
    if vs.len() == 0 {
        None
    } else if vs[0].original == key {
        Some(vs[0])
    } else {
        find_exact(vs.skip(1), key)
    }
}

/// The first mapping whose original name contains `key` or is contained in it.
pub open spec fn find_fuzzy(vs: Seq<LocationMappingView>, key: Seq<char>) -> Option<
    LocationMappingView,
>
    decreases vs.len(),
{
    if vs.len() == 0 {
        None
    } else if contains_seq(key, vs[0].original) || contains_seq(vs[0].original, key) {
        Some(vs[0])
    } else {
        find_fuzzy(vs.skip(1), key)
    }
}

/// The basic cleanup applied to a location with no mapping: trim, collapse
/// doubled blanks, and drop the generic building words.
pub open spec fn basic_normalize_seq(s: Seq<char>) -> Seq<char> {
    trim_seq(
        replace_seq(
            replace_seq(
                replace_seq(replace_seq(trim_seq(s), "  "@, " "@), "教学楼"@, ""@),
                "实验楼"@,
                ""@,
            ),
            "综合楼"@,
            ""@,
        ),
    )
}

/// What `normalize_location` returns: the exact match's normalized name, else
/// the first fuzzy match's, else the basic cleanup of the input.
pub open spec fn normalize_spec(vs: Seq<LocationMappingView>, key: Seq<char>) -> Seq<char> {
    match find_exact(vs, key) {
        Some(m) => m.normalized,
        None => match find_fuzzy(vs, key) {
            Some(m) => m.normalized,
            None => basic_normalize_seq(key),
        },
    }
}

/// Whether a run of four decimal digits starts at position `i` of `s`.
pub open spec fn four_digits_at(s: Seq<char>, i: int) -> bool {
    0 <= i && i + 4 <= s.len() && (forall|k: int| i <= k < i + 4 ==> is_ascii_digit(#[trigger] s[k]))
}

/// Whether `room` is what the room-number extraction yields for `loc`: the
/// leftmost run of four decimal digits, or the placeholder room.
pub open spec fn room_number_ok(loc: Seq<char>, room: Seq<char>) -> bool {
    ||| exists|i: int|
        {
            &&& #[trigger] four_digits_at(loc, i)
            &&& room == loc.subrange(i, i + 4)
            &&& forall|j: int| 0 <= j < i ==> !four_digits_at(loc, j)
        }
    ||| ((forall|j: int| !four_digits_at(loc, j)) && room == "6666"@)
}

/// Relies on regex::Regex::find with the pattern of four decimal digits:
/// it returns the leftmost such run of `loc`, or nothing. The pattern is
/// all-ASCII, so byte positions and character positions agree.
#[verifier::external_body]
fn find_four_digit_run(loc: &str) -> (r: Option<String>)
    ensures
        match r {
            Some(m) => exists|i: int|
                {
                    &&& #[trigger] four_digits_at(loc@, i)
                    &&& m@ == loc@.subrange(i, i + 4)
                    &&& forall|j: int| 0 <= j < i ==> !four_digits_at(loc@, j)
                },
            None => forall|j: int| !four_digits_at(loc@, j),
        },
{
    let re = regex::Regex::new("[0-9]{4}").unwrap();
    re.find(loc).map(|m| m.as_str().to_string())
}

/// The geocoding block of the calendar text for a location, given the
/// extracted room number.
pub open spec fn geo_location_spec(loc: Seq<char>, room: Seq<char>) -> Seq<char> {
    if contains_seq(loc, "YF"@) {
        "LOCATION:重庆邮电大学-逸夫科技楼\\n崇文路2号重庆邮电大学\r\nX-APPLE-STRUCTURED-LOCATION;VALUE=URI;X-TITLE=重庆邮电大学-逸夫科技楼\\\\n崇文路2号重庆邮电大学:geo:29.535617,106.607390\r\nGEO:29.535617;106.607390\r\n"@
    } else if contains_seq(loc, "SL"@) {
        "LOCATION:重庆邮电大学数理学院\\n崇文路2号重庆邮电大学内\r\nX-APPLE-STRUCTURED-LOCATION;VALUE=URI;X-TITLE=重庆邮电大学数理学院\\\\n崇文路2号重庆邮电大学内:geo:29.530599,106.605454\r\nGEO:29.530599;106.605454\r\n"@
    } else if contains_seq(loc, "综合实验"@) || contains_seq(loc, "实验实训室"@) {
        "LOCATION:重庆邮电大学综合实验大楼\\n南山路新力村\r\nX-APPLE-STRUCTURED-LOCATION;VALUE=URI;X-TITLE=重庆邮电大学综合实验大楼\\\\n南山路新力村:geo:29.524289,106.605595\r\nGEO:29.524289;106.605595\r\n"@
    } else if contains_seq(loc, "风华"@) || loc == "运动场1"@ {
        "LOCATION:风华运动场\\n南山街道重庆邮电大学5栋\r\nX-APPLE-STRUCTURED-LOCATION;VALUE=URI;X-TITLE=风华运动场\\\\n南山街道重庆邮电大学5栋:geo:29.532757,106.607510\r\nGEO:29.532757;106.607510\r\n"@
    } else if contains_seq(loc, "太极"@) {
        "LOCATION:重庆邮电大学-太极体育场\\n崇文路2号重庆邮电大学内\r\nX-APPLE-STRUCTURED-LOCATION;VALUE=URI;X-TITLE=重庆邮电大学-太极体育场\\\\n崇文路2号重庆邮电大学内:geo:29.532940,106.609072\r\nGEO:29.532940;106.609072\r\n"@
    } else if contains_seq(loc, "乒乓球"@) {
        "LOCATION:风雨操场(乒乓球馆)\\n崇文路2号重庆邮电大学内\r\nX-APPLE-STRUCTURED-LOCATION;VALUE=URI;X-TITLE=风雨操场(乒乓球馆)\\\\n崇文路2号重庆邮电大学内:geo:29.534230,106.608516\r\nGEO:29.534230;106.608516\r\n"@
    } else if contains_seq(loc, "篮球"@) || contains_seq(loc, "排球"@) {
        "LOCATION:重庆邮电学院篮球排球馆\\n崇文路2号重庆邮电大学内\r\nX-APPLE-STRUCTURED-LOCATION;VALUE=URI;X-TITLE=重庆邮电学院篮球排球馆\\\\n崇文路2号重庆邮电大学内:geo:29.534025,106.609148\r\nGEO:29.534025;106.609148\r\n"@
    } else if contains_seq(loc, "仙桃A08"@) {
        "LOCATION:重庆仙桃数据谷A08\\n中国重庆市渝北区金山大道仙桃国际大数据谷体验中心\r\nX-APPLE-STRUCTURED-LOCATION;VALUE=URI;X-TITLE=重庆仙桃数据谷A08\\\\n中国重庆市渝北区金山大道仙桃国际大数据谷体验中心:geo:29.739791,106.55661\r\nGEO:29.739791;106.55661\r\n"@
    } else if contains_seq(loc, "仙桃运动场"@) {
        "LOCATION:仙桃体育公园\\n中国重庆市渝北区金山大道仙桃国际大数据谷体验中心\r\nX-APPLE-STRUCTURED-LOCATION;VALUE=URI;X-TITLE=仙桃体育公园\\\\n中国重庆市渝北区仙桃街道数据谷东路仙桃国际数据谷内:geo:29.745789,106.55749\r\nGEO:29.745789;106.55749\r\n"@
    } else if room.len() > 0 && room[0] == '1' {
        "LOCATION:重庆邮电大学-光电工程学院\\n崇文路2号重庆邮电大学内\r\nX-APPLE-STRUCTURED-LOCATION;VALUE=URI;X-TITLE=重庆邮电大学-光电工程学院\\\\n崇文路2号重庆邮电大学内:geo:29.531478,106.605921\r\nGEO:29.531478;106.605921\r\n"@
    } else if room.len() > 0 && room[0] == '2' {
        "LOCATION:重庆邮电大学二教学楼\\n崇文路2号重庆邮电大学内\r\nX-APPLE-STRUCTURED-LOCATION;VALUE=URI;X-TITLE=重庆邮电大学二教学楼\\\\n崇文路2号重庆邮电大学内:geo:29.532703,106.606747\r\nGEO:29.532703;106.606747\r\n"@
    } else if room.len() > 0 && room[0] == '3' {
        "LOCATION:重庆邮电大学第三教学楼\\n崇文路2号\r\nX-APPLE-STRUCTURED-LOCATION;VALUE=URI;X-TITLE=重庆邮电大学第三教学楼\\\\n崇文路2号:geo:29.535119,106.609114\r\nGEO:29.535119;106.609114\r\n"@
    } else if room.len() > 0 && room[0] == '4' {
        "LOCATION:重庆邮电大学第四教学楼\\n崇文路2号\r\nX-APPLE-STRUCTURED-LOCATION;VALUE=URI;X-TITLE=重庆邮电大学第四教学楼\\\\n崇文路2号:geo:29.536107,106.608759\r\nGEO:29.536107;106.608759\r\n"@
    } else if room.len() > 0 && room[0] == '5' {
        "LOCATION:重庆邮电大学-国际学院\\n崇文路2号重庆邮电大学内\r\nX-APPLE-STRUCTURED-LOCATION;VALUE=URI;X-TITLE=重庆邮电大学-国际学院\\\\n崇文路2号重庆邮电大学内:geo:29.536131,106.610090\r\nGEO:29.536131;106.610090\r\n"@
    } else if room.len() > 0 && room[0] == '8' {
        "LOCATION:重庆邮电大学八教学楼A栋\\n崇文路2号重庆邮电大学内\r\nX-APPLE-STRUCTURED-LOCATION;VALUE=URI;X-TITLE=重庆邮电大学八教学楼A栋\\\\n崇文路2号重庆邮电大学内:geo:29.535322,106.611020\r\nGEO:29.535322;106.611020\r\n"@
    } else {
        "LOCATION:重庆邮电大学\\n崇文路2号\r\nX-APPLE-STRUCTURED-LOCATION;VALUE=URI;X-TITLE=重庆邮电大学\\\\n崇文路2号:geo:29.530807,106.607617\r\nGEO:29.530807;106.607617\r\n"@
    }
}

impl LocationManager {
    /// The mapping table, as mathematical values, in insertion order.
    pub closed spec fn view_seq(&self) -> Seq<LocationMappingView> {
        mapping_views(self.mappings@)
    }

    /// The table never holds two mappings for the same original name.
    pub open spec fn wf(&self) -> bool {
        forall|i: int, j: int|
            0 <= i < j < self.view_seq().len() ==> #[trigger] self.view_seq()[i].original
                != #[trigger] self.view_seq()[j].original
    }

    /// An empty location manager.
    pub fn new() -> (r: Self)
        ensures
            r.view_seq().len() == 0,
            r.wf(),
    {
        let r = LocationManager { mappings: Vec::new() };
        proof {
            assert(r.view_seq() =~= Seq::<LocationMappingView>::empty());
        }
        r
    }

    /// Adds a mapping, keyed by its original name; an existing entry with the
    /// same original name is replaced.
    pub fn add_mapping(&mut self, mapping: LocationMapping)
        requires
            old(self).wf(),
        ensures
            final(self).wf(),
            ({
                let olds = old(self).view_seq();
                let news = final(self).view_seq();
                if exists|i: int| 0 <= i < olds.len() && #[trigger] olds[i].original == mapping@.original {
                    exists|i: int|
                        0 <= i < olds.len() && #[trigger] olds[i].original == mapping@.original
                            && news == olds.update(i, mapping@)
                } else {
                    news == olds.push(mapping@)
                }
            }),
    {
        let ghost olds = self.view_seq();
        let mut i: usize = 0;
        while i < self.mappings.len()
            invariant
                0 <= i <= self.mappings@.len(),
                old(self).wf(),
                *self == *old(self),
                olds == old(self).view_seq(),
                forall|k: int| 0 <= k < i ==> #[trigger] olds[k].original != mapping@.original,
            decreases self.mappings@.len() - i,
        {
            if str_eq(self.mappings[i].original.as_str(), mapping.original.as_str()) {
                proof {
                    assert(olds[i as int].original == mapping@.original);
                }
                self.mappings.set(i, mapping);
                proof {
                    assert(self.view_seq() =~= olds.update(i as int, mapping@));
                    assert forall|a: int, b: int|
                        0 <= a < b < self.view_seq().len() implies #[trigger] self.view_seq()[a].original
                        != #[trigger] self.view_seq()[b].original by {
                        assert(olds[a].original != olds[b].original);
                    }
                }
                return;
            }
            i = i + 1;
        }
        proof {
            assert(forall|k: int|
                0 <= k < olds.len() ==> #[trigger] olds[k].original != mapping@.original);
        }
        self.mappings.push(mapping);
        proof {
            assert(self.view_seq() =~= olds.push(mapping@));
        }
    }

    /// The mapping for an original name, when the table holds one.
    pub fn get_location_details(&self, original: &str) -> (r: Option<&LocationMapping>)
        ensures
            match r {
            Some(m) => exists|i: int|
                0 <= i < self.view_seq().len() && #[trigger] self.view_seq()[i].original
                    == original@ && m@ == self.view_seq()[i],
            None => forall|i: int|
                0 <= i < self.view_seq().len() ==> #[trigger] self.view_seq()[i].original
                    != original@,
            },
    {
        let mut i: usize = 0;
        while i < self.mappings.len()
            invariant
                0 <= i <= self.mappings@.len(),
                forall|k: int|
                    0 <= k < i ==> #[trigger] self.view_seq()[k].original != original@,
            decreases self.mappings@.len() - i,
        {
            if str_eq(self.mappings[i].original.as_str(), original) {
                proof {
                    assert(self.view_seq()[i as int].original == original@);
                }
                return Some(&self.mappings[i]);
            }
            i = i + 1;
        }
        None
    }

    /// The whole mapping table, in insertion order.
    pub fn get_all_mappings(&self) -> (r: &Vec<LocationMapping>)
        ensures
            mapping_views(r@) == self.view_seq(),
    {
        &self.mappings
    }

    /// The normalized name of a location: its exact mapping when there is
    /// one, else the first fuzzy match, else the basic cleanup.
    pub fn normalize_location(&self, original: &str) -> (r: String)
        ensures
            r@ == normalize_spec(self.view_seq(), original@),
    {
        let ghost vs = self.view_seq();
        proof {
            assert(vs.skip(0) =~= vs);
        }
        let mut i: usize = 0;
        while i < self.mappings.len()
            invariant
                0 <= i <= self.mappings@.len(),
                vs == self.view_seq(),
                find_exact(vs, original@) == find_exact(vs.skip(i as int), original@),
            decreases self.mappings@.len() - i,
        {
            proof {
                assert(vs.skip(i as int)[0] == vs[i as int]);
                assert(vs.skip(i as int).skip(1) =~= vs.skip(i + 1));
            }
            if str_eq(self.mappings[i].original.as_str(), original) {
                proof {
                    assert(vs.skip(i as int)[0].original == original@);
                }
                return self.mappings[i].normalized.clone();
            }
            i = i + 1;
        }
        proof {
            assert(vs.skip(vs.len() as int) =~= Seq::<LocationMappingView>::empty());
        }
        proof {
            assert(vs.skip(0) =~= vs);
        }
        let mut i: usize = 0;
        while i < self.mappings.len()
            invariant
                0 <= i <= self.mappings@.len(),
                vs == self.view_seq(),
                find_exact(vs, original@) is None,
                find_fuzzy(vs, original@) == find_fuzzy(vs.skip(i as int), original@),
            decreases self.mappings@.len() - i,
        {
            proof {
                assert(vs.skip(i as int)[0] == vs[i as int]);
                assert(vs.skip(i as int).skip(1) =~= vs.skip(i + 1));
            }
            let m = &self.mappings[i];
            if contains_sub(original, m.original.as_str()) || contains_sub(
                m.original.as_str(),
                original,
            ) {
                proof {
                    assert(contains_seq(original@, vs.skip(i as int)[0].original) || contains_seq(
                        vs.skip(i as int)[0].original,
                        original@,
                    ));
                }
                return m.normalized.clone();
            }
            i = i + 1;
        }
        proof {
            assert(vs.skip(vs.len() as int) =~= Seq::<LocationMappingView>::empty());
        }
        self.basic_normalize(original)
    }

    /// The basic cleanup: trim, collapse doubled blanks, drop the generic
    /// building words, trim again.
    fn basic_normalize(&self, location: &str) -> (r: String)
        ensures
            r@ == basic_normalize_seq(location@),
    {
        let t = trim_blank(location);
        let a = replace_all(t.as_str(), "  ", " ");
        let b = replace_all(a.as_str(), "教学楼", "");
        let c = replace_all(b.as_str(), "实验楼", "");
        let d = replace_all(c.as_str(), "综合楼", "");
        trim_blank(d.as_str())
    }

    /// The geocoding block of the calendar text for a location.
    pub fn get_location_with_geo(&self, loc: &str) -> (r: String)
        ensures
            exists|room: Seq<char>|
                #[trigger] room_number_ok(loc@, room) && r@ == geo_location_spec(loc@, room),
    {
        let room = self.extract_room_number(loc);
        proof {
            reveal_strlit("6666");
        }
        let first = room.as_str().get_char(0);
        if contains_sub(loc, "YF") {
            String::from_str("LOCATION:重庆邮电大学-逸夫科技楼\\n崇文路2号重庆邮电大学\r\nX-APPLE-STRUCTURED-LOCATION;VALUE=URI;X-TITLE=重庆邮电大学-逸夫科技楼\\\\n崇文路2号重庆邮电大学:geo:29.535617,106.607390\r\nGEO:29.535617;106.607390\r\n")
        } else if contains_sub(loc, "SL") {
            String::from_str("LOCATION:重庆邮电大学数理学院\\n崇文路2号重庆邮电大学内\r\nX-APPLE-STRUCTURED-LOCATION;VALUE=URI;X-TITLE=重庆邮电大学数理学院\\\\n崇文路2号重庆邮电大学内:geo:29.530599,106.605454\r\nGEO:29.530599;106.605454\r\n")
        } else if contains_sub(loc, "综合实验") || contains_sub(loc, "实验实训室") {
            String::from_str("LOCATION:重庆邮电大学综合实验大楼\\n南山路新力村\r\nX-APPLE-STRUCTURED-LOCATION;VALUE=URI;X-TITLE=重庆邮电大学综合实验大楼\\\\n南山路新力村:geo:29.524289,106.605595\r\nGEO:29.524289;106.605595\r\n")
        } else if contains_sub(loc, "风华") || str_eq(loc, "运动场1") {
            String::from_str("LOCATION:风华运动场\\n南山街道重庆邮电大学5栋\r\nX-APPLE-STRUCTURED-LOCATION;VALUE=URI;X-TITLE=风华运动场\\\\n南山街道重庆邮电大学5栋:geo:29.532757,106.607510\r\nGEO:29.532757;106.607510\r\n")
        } else if contains_sub(loc, "太极") {
            String::from_str("LOCATION:重庆邮电大学-太极体育场\\n崇文路2号重庆邮电大学内\r\nX-APPLE-STRUCTURED-LOCATION;VALUE=URI;X-TITLE=重庆邮电大学-太极体育场\\\\n崇文路2号重庆邮电大学内:geo:29.532940,106.609072\r\nGEO:29.532940;106.609072\r\n")
        } else if contains_sub(loc, "乒乓球") {
            String::from_str("LOCATION:风雨操场(乒乓球馆)\\n崇文路2号重庆邮电大学内\r\nX-APPLE-STRUCTURED-LOCATION;VALUE=URI;X-TITLE=风雨操场(乒乓球馆)\\\\n崇文路2号重庆邮电大学内:geo:29.534230,106.608516\r\nGEO:29.534230;106.608516\r\n")
        } else if contains_sub(loc, "篮球") || contains_sub(loc, "排球") {
            String::from_str("LOCATION:重庆邮电学院篮球排球馆\\n崇文路2号重庆邮电大学内\r\nX-APPLE-STRUCTURED-LOCATION;VALUE=URI;X-TITLE=重庆邮电学院篮球排球馆\\\\n崇文路2号重庆邮电大学内:geo:29.534025,106.609148\r\nGEO:29.534025;106.609148\r\n")
        } else if contains_sub(loc, "仙桃A08") {
            String::from_str("LOCATION:重庆仙桃数据谷A08\\n中国重庆市渝北区金山大道仙桃国际大数据谷体验中心\r\nX-APPLE-STRUCTURED-LOCATION;VALUE=URI;X-TITLE=重庆仙桃数据谷A08\\\\n中国重庆市渝北区金山大道仙桃国际大数据谷体验中心:geo:29.739791,106.55661\r\nGEO:29.739791;106.55661\r\n")
        } else if contains_sub(loc, "仙桃运动场") {
            String::from_str("LOCATION:仙桃体育公园\\n中国重庆市渝北区金山大道仙桃国际大数据谷体验中心\r\nX-APPLE-STRUCTURED-LOCATION;VALUE=URI;X-TITLE=仙桃体育公园\\\\n中国重庆市渝北区仙桃街道数据谷东路仙桃国际数据谷内:geo:29.745789,106.55749\r\nGEO:29.745789;106.55749\r\n")
        } else if first == '1' {
            String::from_str("LOCATION:重庆邮电大学-光电工程学院\\n崇文路2号重庆邮电大学内\r\nX-APPLE-STRUCTURED-LOCATION;VALUE=URI;X-TITLE=重庆邮电大学-光电工程学院\\\\n崇文路2号重庆邮电大学内:geo:29.531478,106.605921\r\nGEO:29.531478;106.605921\r\n")
        } else if first == '2' {
            String::from_str("LOCATION:重庆邮电大学二教学楼\\n崇文路2号重庆邮电大学内\r\nX-APPLE-STRUCTURED-LOCATION;VALUE=URI;X-TITLE=重庆邮电大学二教学楼\\\\n崇文路2号重庆邮电大学内:geo:29.532703,106.606747\r\nGEO:29.532703;106.606747\r\n")
        } else if first == '3' {
            String::from_str("LOCATION:重庆邮电大学第三教学楼\\n崇文路2号\r\nX-APPLE-STRUCTURED-LOCATION;VALUE=URI;X-TITLE=重庆邮电大学第三教学楼\\\\n崇文路2号:geo:29.535119,106.609114\r\nGEO:29.535119;106.609114\r\n")
        } else if first == '4' {
            String::from_str("LOCATION:重庆邮电大学第四教学楼\\n崇文路2号\r\nX-APPLE-STRUCTURED-LOCATION;VALUE=URI;X-TITLE=重庆邮电大学第四教学楼\\\\n崇文路2号:geo:29.536107,106.608759\r\nGEO:29.536107;106.608759\r\n")
        } else if first == '5' {
            String::from_str("LOCATION:重庆邮电大学-国际学院\\n崇文路2号重庆邮电大学内\r\nX-APPLE-STRUCTURED-LOCATION;VALUE=URI;X-TITLE=重庆邮电大学-国际学院\\\\n崇文路2号重庆邮电大学内:geo:29.536131,106.610090\r\nGEO:29.536131;106.610090\r\n")
        } else if first == '8' {
            String::from_str("LOCATION:重庆邮电大学八教学楼A栋\\n崇文路2号重庆邮电大学内\r\nX-APPLE-STRUCTURED-LOCATION;VALUE=URI;X-TITLE=重庆邮电大学八教学楼A栋\\\\n崇文路2号重庆邮电大学内:geo:29.535322,106.611020\r\nGEO:29.535322;106.611020\r\n")
        } else {
            String::from_str("LOCATION:重庆邮电大学\\n崇文路2号\r\nX-APPLE-STRUCTURED-LOCATION;VALUE=URI;X-TITLE=重庆邮电大学\\\\n崇文路2号:geo:29.530807,106.607617\r\nGEO:29.530807;106.607617\r\n")
        }
    }

    /// The leftmost run of four decimal digits of `loc`, or the placeholder
    /// room number when there is none.
    fn extract_room_number(&self, loc: &str) -> (r: String)
        ensures
            room_number_ok(loc@, r@),
            r@.len() == 4,
    {
        match find_four_digit_run(loc) {
            Some(m) => m,
            None => {
                let r = String::from_str("6666");
                proof {
                    reveal_strlit("6666");
                }
                r
            },
        }
    }
}

impl LocationManager {
    /// The campus building mappings the default manager holds.
    pub open spec fn default_table() -> Seq<LocationMappingView> {
        seq![
            LocationMappingView {
                original: "第一教学楼"@,
                normalized: "一教"@,
                building: Some("第一教学楼"@),
                room: None,
                campus: Some("南山校区"@),
            },
            LocationMappingView {
                original: "第二教学楼"@,
                normalized: "二教"@,
                building: Some("第二教学楼"@),
                room: None,
                campus: Some("南山校区"@),
            },
            LocationMappingView {
                original: "第三教学楼"@,
                normalized: "三教"@,
                building: Some("第三教学楼"@),
                room: None,
                campus: Some("南山校区"@),
            },
            LocationMappingView {
                original: "实验楼"@,
                normalized: "实验楼"@,
                building: Some("实验楼"@),
                room: None,
                campus: Some("南山校区"@),
            },
        ]
    }
}

impl Default for LocationManager {
    /// A manager preloaded with the campus building mappings.
    fn default() -> (r: Self)
        ensures
            r.wf(),
            r.view_seq() == LocationManager::default_table(),
            r.view_seq().len() == 4,
            r.view_seq()[0] == (LocationMappingView {
                original: "第一教学楼"@,
                normalized: "一教"@,
                building: Some("第一教学楼"@),
                room: None,
                campus: Some("南山校区"@),
            }),
            r.view_seq()[1] == (LocationMappingView {
                original: "第二教学楼"@,
                normalized: "二教"@,
                building: Some("第二教学楼"@),
                room: None,
                campus: Some("南山校区"@),
            }),
            r.view_seq()[2] == (LocationMappingView {
                original: "第三教学楼"@,
                normalized: "三教"@,
                building: Some("第三教学楼"@),
                room: None,
                campus: Some("南山校区"@),
            }),
            r.view_seq()[3] == (LocationMappingView {
                original: "实验楼"@,
                normalized: "实验楼"@,
                building: Some("实验楼"@),
                room: None,
                campus: Some("南山校区"@),
            }),
    {
        proof {
            reveal_strlit("第一教学楼");
            reveal_strlit("第二教学楼");
            reveal_strlit("第三教学楼");
            reveal_strlit("实验楼");
        }
        let ghost m1 = (LocationMappingView {
            original: "第一教学楼"@,
            normalized: "一教"@,
            building: Some("第一教学楼"@),
            room: None,
            campus: Some("南山校区"@),
        });
        let ghost m2 = (LocationMappingView {
            original: "第二教学楼"@,
            normalized: "二教"@,
            building: Some("第二教学楼"@),
            room: None,
            campus: Some("南山校区"@),
        });
        let ghost m3 = (LocationMappingView {
            original: "第三教学楼"@,
            normalized: "三教"@,
            building: Some("第三教学楼"@),
            room: None,
            campus: Some("南山校区"@),
        });
        let ghost m4 = (LocationMappingView {
            original: "实验楼"@,
            normalized: "实验楼"@,
            building: Some("实验楼"@),
            room: None,
            campus: Some("南山校区"@),
        });
        let mut manager = LocationManager::new();
        manager.add_mapping(
            LocationMapping {
                original: String::from_str("第一教学楼"),
                normalized: String::from_str("一教"),
                building: Some(String::from_str("第一教学楼")),
                room: None,
                campus: Some(String::from_str("南山校区")),
            },
        );
        proof {
            assert(manager.view_seq() =~= seq![m1]);
        }
        manager.add_mapping(
            LocationMapping {
                original: String::from_str("第二教学楼"),
                normalized: String::from_str("二教"),
                building: Some(String::from_str("第二教学楼")),
                room: None,
                campus: Some(String::from_str("南山校区")),
            },
        );
        proof {
            assert("第一教学楼"@[1] == '一');
            assert("第二教学楼"@[1] == '二');
            assert(manager.view_seq()[0].original != m2.original);
            assert(manager.view_seq() =~= seq![m1, m2]);
        }
        manager.add_mapping(
            LocationMapping {
                original: String::from_str("第三教学楼"),
                normalized: String::from_str("三教"),
                building: Some(String::from_str("第三教学楼")),
                room: None,
                campus: Some(String::from_str("南山校区")),
            },
        );
        proof {
            assert("第一教学楼"@[1] == '一');
            assert("第二教学楼"@[1] == '二');
            assert("第三教学楼"@[1] == '三');
            assert(manager.view_seq()[0].original != m3.original);
            assert(manager.view_seq()[1].original != m3.original);
            assert(manager.view_seq() =~= seq![m1, m2, m3]);
        }
        manager.add_mapping(
            LocationMapping {
                original: String::from_str("实验楼"),
                normalized: String::from_str("实验楼"),
                building: Some(String::from_str("实验楼")),
                room: None,
                campus: Some(String::from_str("南山校区")),
            },
        );
        proof {
            assert(m1.original.len() == 5 && m4.original.len() == 3);
            assert(manager.view_seq()[0].original != m4.original);
            assert(manager.view_seq()[1].original != m4.original);
            assert(manager.view_seq()[2].original != m4.original);
            assert(manager.view_seq() =~= seq![m1, m2, m3, m4]);
            assert(manager.view_seq() =~= LocationManager::default_table());
        }
        manager
    }
}

} // verus!
