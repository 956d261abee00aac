use vstd::prelude::*;
use vstd::string::StringExecFns;
use crate::date::{
    days_to_ymd, valid_ymd, weekday_of_day, Date, Instant, RATA_DIE_EPOCH, RATA_DIE_MAX,
    SECS_PER_DAY,
};
use crate::strutil::{contains_seq, contains_sub, pow10, push_fixed_digits};
use crate::types::{Course, CourseResponse, CourseView, Semester};

verus! {

// The holiday calendar: rest days, make-up days, and the matching between
// them, built once from a classified holiday feed and read-only afterwards.
// Calendar dates are rata-die day numbers (see the date module).

/// Consecutive rest dates at most this many days apart belong to one cluster.
pub const CLUSTER_GAP_DAYS: i64 = 45;

/// A cluster's make-up candidates are searched this many days around it.
pub const MAKEUP_WINDOW_DAYS: i64 = 21;

pub open spec fn sorted_strict(s: Seq<i64>) -> bool {
    forall|i: int| 0 < i < s.len() ==> s[i - 1] < #[trigger] s[i]
}

/// The set of values of a sequence of day numbers.
pub open spec fn day_set(s: Seq<i64>) -> Set<int> {
    Set::new(|d: int| exists|i: int| 0 <= i < s.len() && #[trigger] s[i] == d)
}

pub open spec fn days_in_range(s: Seq<i64>, lo: int, hi: int) -> bool {
    forall|i: int| 0 <= i < s.len() ==> lo <= #[trigger] s[i] <= hi
}

/// The map held by a sequence of key/value pairs; a later pair with the same
/// key wins.
pub open spec fn kv_map(s: Seq<(i64, i64)>) -> Map<int, int>
    decreases s.len(),
{
    if s.len() == 0 {
        Map::empty()
    } else {
        kv_map(s.drop_last()).insert(s.last().0 as int, s.last().1 as int)
    }
}

pub proof fn lemma_kv_map_dom(s: Seq<(i64, i64)>, k: int)
    ensures
        kv_map(s).dom().contains(k) <==> exists|i: int| 0 <= i < s.len() && #[trigger] s[i].0 == k,
    decreases s.len(),
{
    if s.len() > 0 {
        lemma_kv_map_dom(s.drop_last(), k);
        if kv_map(s).dom().contains(k) {
            if s.last().0 == k {
                assert(s[s.len() - 1].0 == k);
            } else {
                let i = choose|i: int| 0 <= i < s.len() - 1 && #[trigger] s.drop_last()[i].0 == k;
                assert(s[i].0 == k);
            }
        }
        if exists|i: int| 0 <= i < s.len() && #[trigger] s[i].0 == k {
            let i = choose|i: int| 0 <= i < s.len() && #[trigger] s[i].0 == k;
            if i < s.len() - 1 {
                assert(s.drop_last()[i].0 == k);
            }
        }
    }
}

pub proof fn lemma_kv_map_at(s: Seq<(i64, i64)>, i: int)
    requires
        0 <= i < s.len(),
        forall|a: int, b: int| 0 <= a < b < s.len() ==> (#[trigger] s[a].0) != (#[trigger] s[b].0),
    ensures
        kv_map(s).dom().contains(s[i].0 as int),
        kv_map(s)[s[i].0 as int] == s[i].1 as int,
    decreases s.len(),
{
    if i == s.len() - 1 {
        assert(s.last() == s[i]);
    } else {
        lemma_kv_map_at(s.drop_last(), i);
        assert(s.drop_last()[i] == s[i]);
        assert(s.last().0 != s[i].0);
    }
}

/// A classified holiday feed entry group: an identity key with the rest dates
/// and make-up dates accumulated under it, each ascending without repeats.
pub struct HolidayGroup {
    pub key: String,
    pub rest: Vec<i64>,
    pub makeup: Vec<i64>,
}

/// The mathematical value of a `HolidayGroup`.
pub ghost struct HolidayGroupView {
    pub key: Seq<char>,
    pub rest: Seq<i64>,
    pub makeup: Seq<i64>,
}

impl View for HolidayGroup {
    type V = HolidayGroupView;

    open spec fn view(&self) -> HolidayGroupView {
        HolidayGroupView { key: self.key@, rest: self.rest@, makeup: self.makeup@ }
    }
}

impl HolidayGroupView {
    pub open spec fn wf(self) -> bool {
        &&& sorted_strict(self.rest)
        &&& sorted_strict(self.makeup)
        &&& days_in_range(self.rest, 1, RATA_DIE_MAX as int)
        &&& days_in_range(self.makeup, 1, RATA_DIE_MAX as int)
    }
}

/// The built holiday calendar: the rest dates, the make-up dates, and the
/// matching of rest dates to make-up dates.
#[derive(Debug, Clone)]
pub struct HolidayCalendar {
    rest_days: Vec<i64>,
    rest_to_makeup: Vec<(i64, i64)>,
    makeup_days: Vec<i64>,
}

impl HolidayCalendar {
    /// The set of rest dates.
    pub closed spec fn rest_set(&self) -> Set<int> {
        day_set(self.rest_days@)
    }

    /// The set of make-up dates.
    pub closed spec fn makeup_set(&self) -> Set<int> {
        day_set(self.makeup_days@)
    }

    /// The matching of rest dates to make-up dates.
    pub closed spec fn map_view(&self) -> Map<int, int> {
        kv_map(self.rest_to_makeup@)
    }

    pub closed spec fn keys_unique(&self) -> bool {
        forall|a: int, b: int|
            0 <= a < b < self.rest_to_makeup@.len() ==> (#[trigger] self.rest_to_makeup@[a].0)
                != (#[trigger] self.rest_to_makeup@[b].0)
    }

    /// Well-formedness: every matched rest date is a rest date, every matched
    /// make-up date is a make-up date, and all dates lie in the supported
    /// calendar range.
    pub closed spec fn wf(&self) -> bool {
        &&& self.keys_unique()
        &&& sorted_strict(self.rest_to_makeup@.map_values(|p: (i64, i64)| p.0))
        &&& forall|i: int|
            0 <= i < self.rest_to_makeup@.len() ==> self.rest_set().contains(
                (#[trigger] self.rest_to_makeup@[i]).0 as int,
            ) && self.makeup_set().contains(self.rest_to_makeup@[i].1 as int)
        &&& days_in_range(self.rest_days@, 1, RATA_DIE_MAX as int)
        &&& days_in_range(self.makeup_days@, 1, RATA_DIE_MAX as int)
        &&& forall|i: int|
            0 <= i < self.rest_to_makeup@.len() ==> 1 <= (#[trigger] self.rest_to_makeup@[i]).0
                <= RATA_DIE_MAX && 1 <= self.rest_to_makeup@[i].1 <= RATA_DIE_MAX
    }

    /// The matched rest dates are rest dates, and the dates they are matched
    /// to are make-up dates.
    pub proof fn lemma_matching_contained(&self)
        requires
            self.wf(),
        ensures
            forall|k: int|
                #[trigger] self.map_view().dom().contains(k) ==> self.rest_set().contains(k),
            forall|k: int|
                #[trigger] self.map_view().dom().contains(k) ==> self.makeup_set().contains(
                    self.map_view()[k],
                ),
    {
        assert forall|k: int| #[trigger]
            self.map_view().dom().contains(k) implies self.rest_set().contains(k) by {
            lemma_kv_map_dom(self.rest_to_makeup@, k);
            let i = choose|i: int|
                0 <= i < self.rest_to_makeup@.len() && #[trigger] self.rest_to_makeup@[i].0 == k;
            lemma_kv_map_at(self.rest_to_makeup@, i);
        }
        assert forall|k: int| #[trigger]
            self.map_view().dom().contains(k) implies self.makeup_set().contains(
            self.map_view()[k],
        ) by {
            lemma_kv_map_dom(self.rest_to_makeup@, k);
            let i = choose|i: int|
                0 <= i < self.rest_to_makeup@.len() && #[trigger] self.rest_to_makeup@[i].0 == k;
            lemma_kv_map_at(self.rest_to_makeup@, i);
        }
    }

    /// Whether a date is a rest day.
    pub fn is_rest_day(&self, date: Date) -> (r: bool)
        ensures
            r == self.rest_set().contains(date.day as int),
    {
        contains_day(&self.rest_days, date.day)
    }

    /// Whether a date is a make-up working day.
    pub fn is_makeup_day(&self, date: Date) -> (r: bool)
        ensures
            r == self.makeup_set().contains(date.day as int),
    {
        contains_day(&self.makeup_days, date.day)
    }

    /// The make-up date matched to a rest date, when there is one.
    pub fn makeup_for(&self, rest_date: Date) -> (r: Option<Date>)
        requires
            self.wf(),
        ensures
            match r {
                Some(m) => self.map_view().dom().contains(rest_date.day as int)
                    && self.map_view()[rest_date.day as int] == m.day as int,
                None => !self.map_view().dom().contains(rest_date.day as int),
            },
    {
        let mut i: usize = 0;
        while i < self.rest_to_makeup.len()
            invariant
                0 <= i <= self.rest_to_makeup@.len(),
                self.wf(),
                forall|k: int| 0 <= k < i ==> (#[trigger] self.rest_to_makeup@[k]).0
                    != rest_date.day,
            decreases self.rest_to_makeup@.len() - i,
        {
            let (k, v) = self.rest_to_makeup[i];
            if k == rest_date.day {
                proof {
                    lemma_kv_map_at(self.rest_to_makeup@, i as int);
                }
                return Some(Date { day: v });
            }
            i = i + 1;
        }
        proof {
            lemma_kv_map_dom(self.rest_to_makeup@, rest_date.day as int);
        }
        None
    }

    /// The rest date matched to a make-up date: the smallest such rest date,
    /// when any rest date is matched to it.
    pub fn rest_for_makeup(&self, makeup_date: Date) -> (r: Option<Date>)
        requires
            self.wf(),
        ensures
            match r {
                Some(rest) => {
                    &&& self.map_view().dom().contains(rest.day as int)
                    &&& self.map_view()[rest.day as int] == makeup_date.day as int
                    &&& forall|k: int|
                        self.map_view().dom().contains(k) && #[trigger] self.map_view()[k]
                            == makeup_date.day as int ==> rest.day <= k
                },
                None => forall|k: int|
                    self.map_view().dom().contains(k) ==> #[trigger] self.map_view()[k]
                        != makeup_date.day as int,
            },
    {
        let mut i: usize = 0;
        while i < self.rest_to_makeup.len()
            invariant
                0 <= i <= self.rest_to_makeup@.len(),
                self.wf(),
                forall|k: int| 0 <= k < i ==> (#[trigger] self.rest_to_makeup@[k]).1
                    != makeup_date.day,
            decreases self.rest_to_makeup@.len() - i,
        {
            let (k, v) = self.rest_to_makeup[i];
            if v == makeup_date.day {
                proof {
                    lemma_kv_map_at(self.rest_to_makeup@, i as int);
                    assert forall|kk: int|
                        self.map_view().dom().contains(kk) && #[trigger] self.map_view()[kk]
                            == makeup_date.day as int implies k as int <= kk by {
                        lemma_kv_map_dom(self.rest_to_makeup@, kk);
                        let j = choose|j: int|
                            0 <= j < self.rest_to_makeup@.len()
                                && #[trigger] self.rest_to_makeup@[j].0 == kk;
                        lemma_kv_map_at(self.rest_to_makeup@, j);
                        if j < i {
                            assert(self.rest_to_makeup@[j].1 != makeup_date.day);
                        } else if j > i {
                            lemma_sorted_map_keys_ordered(self.rest_to_makeup@, i as int, j);
                        }
                    }
                }
                return Some(Date { day: k });
            }
            i = i + 1;
        }
        proof {
            assert forall|k: int|
                self.map_view().dom().contains(k) implies #[trigger] self.map_view()[k]
                != makeup_date.day as int by {
                lemma_kv_map_dom(self.rest_to_makeup@, k);
                let j = choose|j: int|
                    0 <= j < self.rest_to_makeup@.len() && #[trigger] self.rest_to_makeup@[j].0
                        == k;
                lemma_kv_map_at(self.rest_to_makeup@, j);
            }
        }
        None
    }
}

proof fn lemma_sorted_map_keys_ordered(s: Seq<(i64, i64)>, i: int, j: int)
    requires
        sorted_strict(s.map_values(|p: (i64, i64)| p.0)),
        0 <= i < j < s.len(),
    ensures
        s[i].0 < s[j].0,
    decreases j - i,
{
    let keys = s.map_values(|p: (i64, i64)| p.0);
    if i + 1 < j {
        lemma_sorted_map_keys_ordered(s, i, j - 1);
        assert(keys[j - 1] < keys[j]);
    } else {
        assert(keys[i] < keys[j]);
    }
}

/// Whether a sorted day list holds a day.
fn contains_day(v: &Vec<i64>, day: i64) -> (r: bool)
    ensures
        r == day_set(v@).contains(day as int),
{
    let mut i: usize = 0;
    while i < v.len()
        invariant
            0 <= i <= v@.len(),
            forall|k: int| 0 <= k < i ==> #[trigger] v@[k] != day,
        decreases v@.len() - i,
    {
        if v[i] == day {
            proof {
                assert(day_set(v@).contains(day as int));
            }
            return true;
        }
        i = i + 1;
    }
    proof {
        if day_set(v@).contains(day as int) {
            let k = choose|k: int| 0 <= k < v@.len() && #[trigger] v@[k] == day as int;
        }
    }
    false
}

/// Inserts a day into a sorted list without repeats, keeping it so.
pub fn insert_sorted_dedup(v: &mut Vec<i64>, day: i64)
    requires
        sorted_strict(old(v)@),
    ensures
        sorted_strict(final(v)@),
        day_set(final(v)@) == day_set(old(v)@).insert(day as int),
        days_in_range(old(v)@, 1, RATA_DIE_MAX as int) && 1 <= day <= RATA_DIE_MAX
            ==> days_in_range(final(v)@, 1, RATA_DIE_MAX as int),
{
    let ghost olds = v@;
    let mut i: usize = 0;
    while i < v.len() && v[i] < day
        invariant
            0 <= i <= v@.len(),
            v@ == olds,
            sorted_strict(olds),
            forall|k: int| 0 <= k < i ==> #[trigger] olds[k] < day,
        decreases v@.len() - i,
    {
        i = i + 1;
    }
    if i < v.len() && v[i] == day {
        proof {
            assert(olds[i as int] == day);
            assert(day_set(olds).contains(day as int));
            assert(day_set(olds) =~= day_set(olds).insert(day as int));
        }
        return;
    }
    v.insert(i, day);
    proof {
        let news = v@;
        assert forall|k: int| 0 < k < news.len() implies news[k - 1] < #[trigger] news[k] by {
            if k < i {
                assert(news[k] == olds[k]);
            } else if k == i {
                assert(news[k] == day);
            } else if k == i + 1 {
                assert(news[k] == olds[i as int]);
                if i < olds.len() {
                    assert(olds[i as int] != day);
                }
            } else {
                assert(news[k] == olds[k - 1]);
            }
        }
        assert(day_set(news) =~= day_set(olds).insert(day as int)) by {
            assert forall|d: int| day_set(news).contains(d) implies day_set(olds).insert(
                day as int,
            ).contains(d) by {
                let k = choose|k: int| 0 <= k < news.len() && #[trigger] news[k] == d;
                if k < i {
                    assert(olds[k] == d);
                } else if k > i {
                    assert(olds[k - 1] == d);
                }
            }
            assert forall|d: int| day_set(olds).insert(day as int).contains(d) implies day_set(
                news,
            ).contains(d) by {
                if d == day as int {
                    assert(news[i as int] == day);
                } else {
                    let k = choose|k: int| 0 <= k < olds.len() && #[trigger] olds[k] == d;
                    if k < i {
                        assert(news[k] == d);
                    } else {
                        assert(news[k + 1] == d);
                    }
                }
            }
        }
    }
}

/// Binds a key to a value in a key-sorted pair list, keeping it sorted;
/// an existing binding of the key is replaced.
#[verifier::rlimit(60)]
pub fn insert_kv(v: &mut Vec<(i64, i64)>, key: i64, value: i64)
    requires
        sorted_strict(old(v)@.map_values(|p: (i64, i64)| p.0)),
    ensures
        sorted_strict(final(v)@.map_values(|p: (i64, i64)| p.0)),
        kv_map(final(v)@) == kv_map(old(v)@).insert(key as int, value as int),
        forall|i: int|
            0 <= i < final(v)@.len() ==> (exists|j: int|
                0 <= j < old(v)@.len() && #[trigger] final(v)@[i] == old(v)@[j]) || final(v)@[i]
                == (key, value),
{
    let ghost olds = v@;
    let ghost keys = olds.map_values(|p: (i64, i64)| p.0);
    let mut i: usize = 0;
    while i < v.len() && v[i].0 < key
        invariant
            0 <= i <= v@.len(),
            v@ == olds,
            keys == olds.map_values(|p: (i64, i64)| p.0),
            sorted_strict(keys),
            forall|k: int| 0 <= k < i ==> #[trigger] olds[k].0 < key,
        decreases v@.len() - i,
    {
        i = i + 1;
    }
    proof {
        assert forall|a: int, b: int| 0 <= a < b < olds.len() implies (#[trigger] olds[a].0)
            != (#[trigger] olds[b].0) by {
            lemma_sorted_map_keys_ordered(olds, a, b);
        }
    }
    if i < v.len() && v[i].0 == key {
        v.set(i, (key, value));
        proof {
            let news = v@;
            assert(news.map_values(|p: (i64, i64)| p.0) =~= keys);
            lemma_kv_unique_update(olds, i as int, key, value);
        }
        return;
    }
    proof {
        assert forall|j: int| 0 <= j < olds.len() implies (#[trigger] olds[j].0) != key by {
            if j >= i {
                if j > i {
                    lemma_sorted_map_keys_ordered(olds, i as int, j);
                }
                assert(olds[i as int].0 >= key);
                assert(olds[i as int].0 != key);
            }
        }
    }
    v.insert(i, (key, value));
    proof {
        let news = v@;
        let newkeys = news.map_values(|p: (i64, i64)| p.0);
        assert forall|k: int| 0 < k < newkeys.len() implies newkeys[k - 1] < #[trigger] newkeys[k]
            by {
            if k < i {
                assert(news[k] == olds[k]);
                assert(news[k - 1] == olds[k - 1]);
                assert(keys[k - 1] < keys[k]);
            } else if k == i {
                assert(news[k] == (key, value));
                assert(news[k - 1] == olds[k - 1]);
            } else if k == i + 1 {
                assert(news[k] == olds[i as int]);
                assert(news[k - 1] == (key, value));
                assert(olds[i as int].0 != key);
            } else {
                assert(news[k] == olds[k - 1]);
                assert(news[k - 1] == olds[k - 2]);
                assert(keys[k - 2] < keys[k - 1]);
            }
        }
        lemma_kv_insert_fresh(olds, i as int, key, value);
    }
}

proof fn lemma_kv_unique_update(s: Seq<(i64, i64)>, i: int, key: i64, value: i64)
    requires
        0 <= i < s.len(),
        s[i].0 == key,
        forall|a: int, b: int| 0 <= a < b < s.len() ==> (#[trigger] s[a].0) != (#[trigger] s[b].0),
    ensures
        kv_map(s.update(i, (key, value))) == kv_map(s).insert(key as int, value as int),
    decreases s.len(),
{
    let t = s.update(i, (key, value));
    if i == s.len() - 1 {
        assert(t.drop_last() =~= s.drop_last());
        assert(t.last() == (key, value));
        assert(kv_map(t) =~= kv_map(s).insert(key as int, value as int));
    } else {
        assert(t.drop_last() =~= s.drop_last().update(i, (key, value)));
        assert(t.last() == s.last());
        lemma_kv_unique_update(s.drop_last(), i, key, value);
        assert(s.last().0 != key);
        assert(kv_map(t) =~= kv_map(s).insert(key as int, value as int));
    }
}

proof fn lemma_kv_insert_fresh(s: Seq<(i64, i64)>, i: int, key: i64, value: i64)
    requires
        0 <= i <= s.len(),
        forall|j: int| 0 <= j < s.len() ==> (#[trigger] s[j].0) != key,
    ensures
        kv_map(s.insert(i, (key, value))) == kv_map(s).insert(key as int, value as int),
    decreases s.len(),
{
    let t = s.insert(i, (key, value));
    if i == s.len() {
        assert(t.drop_last() =~= s);
        assert(t.last() == (key, value));
        assert(kv_map(t) =~= kv_map(s).insert(key as int, value as int));
    } else {
        assert(t.drop_last() =~= s.drop_last().insert(i, (key, value)));
        assert(t.last() == s.last());
        lemma_kv_insert_fresh(s.drop_last(), i, key, value);
        assert(s.last().0 != key);
        assert(kv_map(t) =~= kv_map(s).insert(key as int, value as int));
    }
}

/// The length of the maximal leading run of `s` whose consecutive dates are
/// at most `gap` days apart.
pub open spec fn run_len(s: Seq<i64>, gap: int) -> int
    decreases s.len(),
{
    if s.len() <= 1 {
        s.len() as int
    } else if s[1] - s[0] <= gap {
        1 + run_len(s.skip(1), gap)
    } else {
        1
    }
}

proof fn lemma_run_len_bounds(s: Seq<i64>, gap: int)
    requires
        s.len() > 0,
    ensures
        1 <= run_len(s, gap) <= s.len(),
    decreases s.len(),
{
    if s.len() > 1 && s[1] - s[0] <= gap {
        lemma_run_len_bounds(s.skip(1), gap);
    }
}

proof fn lemma_run_len_eq(s: Seq<i64>, gap: int, n: int)
    requires
        1 <= n <= s.len(),
        forall|k: int| 0 < k < n ==> #[trigger] s[k] - s[k - 1] <= gap,
        n < s.len() ==> s[n] - s[n - 1] > gap,
    ensures
        run_len(s, gap) == n,
    decreases n,
{
    if s.len() == 1 {
    } else if s[1] - s[0] <= gap {
        let t = s.skip(1);
        assert forall|k: int| 0 < k < n - 1 implies #[trigger] t[k] - t[k - 1] <= gap by {
            assert(t[k] == s[k + 1]);
            assert(t[k - 1] == s[k]);
            assert(s[k + 1] - s[k] <= gap);
        }
        lemma_run_len_eq(t, gap, n - 1);
    } else {
        assert(n == 1);
    }
}

/// The partition of an ascending date list into maximal runs whose
/// consecutive dates are at most `gap` days apart.
pub open spec fn cluster_split(s: Seq<i64>, gap: int) -> Seq<Seq<i64>>
    decreases s.len(),
{
    if s.len() == 0 {
        Seq::empty()
    } else {
        let n = run_len(s, gap);
        if 1 <= n <= s.len() {
            seq![s.take(n)] + cluster_split(s.skip(n), gap)
        } else {
            seq![s]
        }
    }
}

/// Splits an ascending date list into maximal runs whose consecutive dates
/// are at most `max_gap` days apart.
pub fn cluster_dates(dates: &Vec<i64>, max_gap: i64) -> (r: Vec<Vec<i64>>)
    requires
        0 <= max_gap <= RATA_DIE_MAX,
        days_in_range(dates@, 1, RATA_DIE_MAX as int),
    ensures
        r@.map_values(|c: Vec<i64>| c@) == cluster_split(dates@, max_gap as int),
{
    let mut clusters: Vec<Vec<i64>> = Vec::new();
    let mut idx: usize = 0;
    proof {
        assert(dates@.skip(0) =~= dates@);
        assert(clusters@.map_values(|c: Vec<i64>| c@) + cluster_split(dates@, max_gap as int)
            =~= cluster_split(dates@, max_gap as int));
    }
    while idx < dates.len()
        invariant
            0 <= idx <= dates@.len(),
            0 <= max_gap <= RATA_DIE_MAX,
            days_in_range(dates@, 1, RATA_DIE_MAX as int),
            cluster_split(dates@, max_gap as int) == clusters@.map_values(|c: Vec<i64>| c@)
                + cluster_split(dates@.skip(idx as int), max_gap as int),
        decreases dates@.len() - idx,
    {
        let ghost pre = clusters@;
        let mut j: usize = idx + 1;
        while j < dates.len() && dates[j] - dates[j - 1] <= max_gap
            invariant
                idx < j <= dates@.len(),
                0 <= max_gap <= RATA_DIE_MAX,
                days_in_range(dates@, 1, RATA_DIE_MAX as int),
                forall|k: int| idx < k < j ==> #[trigger] dates@[k] - dates@[k - 1] <= max_gap,
            decreases dates@.len() - j,
        {
            j = j + 1;
        }
        let mut current: Vec<i64> = Vec::new();
        let mut k: usize = idx;
        while k < j
            invariant
                idx <= k <= j <= dates@.len(),
                current@ == dates@.subrange(idx as int, k as int),
            decreases j - k,
        {
            current.push(dates[k]);
            proof {
                assert(current@ =~= dates@.subrange(idx as int, k + 1));
            }
            k = k + 1;
        }
        proof {
            let rest = dates@.skip(idx as int);
            assert forall|m: int| 0 < m < j - idx implies #[trigger] rest[m] - rest[m - 1]
                <= max_gap by {
                assert(rest[m] == dates@[idx + m]);
                assert(rest[m - 1] == dates@[idx + m - 1]);
            }
            if j < dates@.len() {
                assert(rest[j - idx] - rest[j - idx - 1] > max_gap);
            }
            lemma_run_len_eq(rest, max_gap as int, j - idx);
            assert(rest.take(j - idx) =~= dates@.subrange(idx as int, j as int));
            assert(rest.skip(j - idx) =~= dates@.skip(j as int));
            assert(current@ == rest.take(j - idx));
        }
        clusters.push(current);
        proof {
            assert(clusters@.map_values(|c: Vec<i64>| c@) =~= pre.map_values(|c: Vec<i64>| c@)
                + seq![dates@.subrange(idx as int, j as int)]);
            assert(cluster_split(dates@.skip(idx as int), max_gap as int) == seq![
                dates@.subrange(idx as int, j as int),
            ] + cluster_split(dates@.skip(j as int), max_gap as int));
            assert(pre.map_values(|c: Vec<i64>| c@) + cluster_split(
                dates@.skip(idx as int),
                max_gap as int,
            ) =~= clusters@.map_values(|c: Vec<i64>| c@) + cluster_split(
                dates@.skip(j as int),
                max_gap as int,
            ));
        }
        idx = j;
    }
    proof {
        assert(dates@.skip(dates@.len() as int) =~= Seq::<i64>::empty());
        assert(clusters@.map_values(|c: Vec<i64>| c@) + Seq::<Seq<i64>>::empty()
            =~= clusters@.map_values(|c: Vec<i64>| c@));
    }
    clusters
}

fn is_workday(day: i64) -> (r: bool)
    requires
        day >= 0,
    ensures
        r == (weekday_of_day(day as int) <= 5),
{
    let w = crate::date::weekday_from_day(day);
    w <= 5
}

/// The number of filled slots.
pub open spec fn count_some(s: Seq<Option<i64>>) -> int
    decreases s.len(),
{
    if s.len() == 0 {
        0
    } else {
        count_some(s.drop_last()) + if s.last() is Some {
            1int
        } else {
            0int
        }
    }
}

proof fn lemma_count_some_update(s: Seq<Option<i64>>, i: int, v: i64)
    requires
        0 <= i < s.len(),
        s[i] is None,
    ensures
        count_some(s.update(i, Some(v))) == count_some(s) + 1,
    decreases s.len(),
{
    let t = s.update(i, Some(v));
    if i == s.len() - 1 {
        assert(t.drop_last() =~= s.drop_last());
    } else {
        assert(t.drop_last() =~= s.drop_last().update(i, Some(v)));
        lemma_count_some_update(s.drop_last(), i, v);
        assert(t.last() == s.last());
    }
}

proof fn lemma_count_some_full(s: Seq<Option<i64>>)
    requires
        forall|i: int| 0 <= i < s.len() ==> (#[trigger] s[i]) is Some,
    ensures
        count_some(s) == s.len(),
    decreases s.len(),
{
    if s.len() > 0 {
        lemma_count_some_full(s.drop_last());
    }
}

proof fn lemma_count_some_bounds(s: Seq<Option<i64>>)
    ensures
        0 <= count_some(s) <= s.len(),
        (exists|i: int| 0 <= i < s.len() && (#[trigger] s[i]) is None) ==> count_some(s) < s.len(),
    decreases s.len(),
{
    if s.len() > 0 {
        lemma_count_some_bounds(s.drop_last());
        if exists|i: int| 0 <= i < s.len() && (#[trigger] s[i]) is None {
            let i = choose|i: int| 0 <= i < s.len() && (#[trigger] s[i]) is None;
            if i < s.len() - 1 {
                assert(s.drop_last()[i] is None);
            }
        }
    }
}

pub open spec fn above_pred(hi: int) -> spec_fn(i64) -> bool {
    |d: i64| d > hi
}

pub open spec fn below_pred(lo: int) -> spec_fn(i64) -> bool {
    |d: i64| d < lo
}

pub open spec fn within_pred(lo: int, hi: int) -> spec_fn(i64) -> bool {
    |d: i64| lo <= d <= hi
}

pub open spec fn outside_pred(lo: int, hi: int) -> spec_fn(i64) -> bool {
    |d: i64| !(lo <= d <= hi)
}

/// The start of a cluster's make-up search window.
pub open spec fn window_low(c: Seq<i64>) -> int {
    c[0] - MAKEUP_WINDOW_DAYS
}

/// The end of a cluster's make-up search window.
pub open spec fn window_high(c: Seq<i64>) -> int {
    c.last() + MAKEUP_WINDOW_DAYS
}

/// The make-up dates of the pool inside a cluster's search window.
pub open spec fn window_candidates(pool: Seq<i64>, c: Seq<i64>) -> Seq<i64> {
    pool.filter(within_pred(window_low(c), window_high(c)))
}

/// What is left of the pool once a cluster's window is consumed.
pub open spec fn pool_leftover(pool: Seq<i64>, c: Seq<i64>) -> Seq<i64> {
    pool.filter(outside_pred(window_low(c), window_high(c)))
}

/// The make-up pool still unconsumed when the cluster at position `i` is
/// matched: the group's make-up dates minus the windows of the earlier
/// clusters.
pub open spec fn cluster_pool(makeup: Seq<i64>, cs: Seq<Seq<i64>>, i: int) -> Seq<i64>
    decreases i,
{
    if i <= 0 {
        makeup
    } else {
        pool_leftover(cluster_pool(makeup, cs, i - 1), cs[i - 1])
    }
}

/// Whether a matched pair's rest date belongs to the given cluster.
pub open spec fn in_cluster_pred(c: Seq<i64>) -> spec_fn((i64, i64)) -> bool {
    |p: (i64, i64)| c.contains(p.0)
}

proof fn lemma_filter_distributes<A>(a: Seq<A>, b: Seq<A>, p: spec_fn(A) -> bool)
    ensures
        (a + b).filter(p) == a.filter(p) + b.filter(p),
    decreases b.len(),
{
    reveal(Seq::filter);
    if b.len() == 0 {
        assert(a + b =~= a);
        assert(a.filter(p) + b.filter(p) =~= a.filter(p));
    } else {
        lemma_filter_distributes(a, b.drop_last(), p);
        assert((a + b).drop_last() =~= a + b.drop_last());
        assert((a + b).last() == b.last());
        if p(b.last()) {
            assert(a.filter(p) + b.filter(p) =~= (a.filter(p) + b.drop_last().filter(p)).push(
                b.last(),
            ));
        }
    }
}

proof fn lemma_filter_all<A>(s: Seq<A>, p: spec_fn(A) -> bool)
    requires
        forall|i: int| 0 <= i < s.len() ==> p(#[trigger] s[i]),
    ensures
        s.filter(p) == s,
    decreases s.len(),
{
    reveal(Seq::filter);
    if s.len() > 0 {
        lemma_filter_all(s.drop_last(), p);
        assert(s.drop_last().filter(p).push(s.last()) =~= s);
    }
}

proof fn lemma_filter_none<A>(s: Seq<A>, p: spec_fn(A) -> bool)
    requires
        forall|i: int| 0 <= i < s.len() ==> !p(#[trigger] s[i]),
    ensures
        s.filter(p) == Seq::<A>::empty(),
    decreases s.len(),
{
    reveal(Seq::filter);
    if s.len() > 0 {
        lemma_filter_none(s.drop_last(), p);
    } else {
        assert(s.filter(p) =~= Seq::<A>::empty());
    }
}

/// For a sorted pool, the dates outside a window are the dates below it
/// followed by the dates above it.
proof fn lemma_outside_split(s: Seq<i64>, lo: int, hi: int)
    requires
        sorted_strict(s),
        lo <= hi,
    ensures
        s.filter(outside_pred(lo, hi)) == s.filter(below_pred(lo)) + s.filter(above_pred(hi)),
    decreases s.len(),
{
    reveal(Seq::filter);
    if s.len() == 0 {
        assert(s.filter(below_pred(lo)) + s.filter(above_pred(hi)) =~= s.filter(
            outside_pred(lo, hi),
        ));
    } else {
        let d = s.drop_last();
        assert forall|k: int| 0 < k < d.len() implies d[k - 1] < #[trigger] d[k] by {
            assert(s[k - 1] < s[k]);
        }
        lemma_outside_split(d, lo, hi);
        let x = s.last();
        if x > hi {
            assert(s.filter(below_pred(lo)) == d.filter(below_pred(lo)));
            assert(s.filter(outside_pred(lo, hi)) =~= s.filter(below_pred(lo)) + s.filter(
                above_pred(hi),
            ));
        } else if x < lo {
            assert forall|k: int| 0 <= k < d.len() implies !(above_pred(hi)(#[trigger] d[k])) by {
                lemma_sorted_ordered(s, k, s.len() - 1);
            }
            lemma_filter_none(d, above_pred(hi));
            assert(s.filter(above_pred(hi)) == Seq::<i64>::empty());
            assert(s.filter(outside_pred(lo, hi)) =~= s.filter(below_pred(lo)) + s.filter(
                above_pred(hi),
            ));
        } else {
            assert(s.filter(outside_pred(lo, hi)) == d.filter(outside_pred(lo, hi)));
            assert(s.filter(below_pred(lo)) == d.filter(below_pred(lo)));
            assert(s.filter(above_pred(hi)) == d.filter(above_pred(hi)));
        }
    }
}

/// Splits sorted candidate dates into those after the cluster, those before
/// it, and those within its span.
#[verifier::rlimit(100)]
#[verifier::spinoff_prover]
fn split_buckets(cands: &Vec<i64>, first: i64, last: i64) -> (r: (Vec<i64>, Vec<i64>, Vec<i64>))
    requires
        sorted_strict(cands@),
        first <= last,
    ensures
        sorted_strict(r.0@) && sorted_strict(r.1@) && sorted_strict(r.2@),
        r.0@.len() + r.1@.len() + r.2@.len() == cands@.len(),
        forall|x: i64| r.0@.contains(x) <==> (cands@.contains(x) && x > last),
        forall|x: i64| r.1@.contains(x) <==> (cands@.contains(x) && x < first),
        forall|x: i64| r.2@.contains(x) <==> (cands@.contains(x) && first <= x <= last),
        r.0@ == cands@.filter(above_pred(last as int)),
        r.1@ == cands@.filter(below_pred(first as int)),
        r.2@ == cands@.filter(within_pred(first as int, last as int)),
{
    let mut after: Vec<i64> = Vec::new();
    let mut before: Vec<i64> = Vec::new();
    let mut within: Vec<i64> = Vec::new();
    proof {
        reveal(Seq::filter);
        assert(cands@.subrange(0, 0) =~= Seq::<i64>::empty());
        assert(after@ =~= cands@.subrange(0, 0).filter(above_pred(last as int)));
        assert(before@ =~= cands@.subrange(0, 0).filter(below_pred(first as int)));
        assert(within@ =~= cands@.subrange(0, 0).filter(within_pred(first as int, last as int)));
    }
    let mut i: usize = 0;
    while i < cands.len()
        invariant
            0 <= i <= cands@.len(),
            sorted_strict(cands@),
            first <= last,
            sorted_strict(after@) && sorted_strict(before@) && sorted_strict(within@),
            after@.len() + before@.len() + within@.len() == i,
            forall|x: i64|
                after@.contains(x) <==> (exists|k: int|
                    0 <= k < i && #[trigger] cands@[k] == x && x > last),
            forall|x: i64|
                before@.contains(x) <==> (exists|k: int|
                    0 <= k < i && #[trigger] cands@[k] == x && x < first),
            forall|x: i64|
                within@.contains(x) <==> (exists|k: int|
                    0 <= k < i && #[trigger] cands@[k] == x && first <= x <= last),
            after@.len() > 0 ==> (exists|k: int| 0 <= k < i && #[trigger] cands@[k] == after@.last()),
            before@.len() > 0 ==> (exists|k: int|
                0 <= k < i && #[trigger] cands@[k] == before@.last()),
            within@.len() > 0 ==> (exists|k: int|
                0 <= k < i && #[trigger] cands@[k] == within@.last()),
            after@ == cands@.subrange(0, i as int).filter(above_pred(last as int)),
            before@ == cands@.subrange(0, i as int).filter(below_pred(first as int)),
            within@ == cands@.subrange(0, i as int).filter(within_pred(first as int, last as int)),
        decreases cands@.len() - i,
    {
        let d = cands[i];
        proof {
            reveal(Seq::filter);
            let sub = cands@.subrange(0, i + 1);
            assert(sub.drop_last() =~= cands@.subrange(0, i as int));
            assert(sub.last() == cands@[i as int]);
            if after@.len() > 0 {
                let k = choose|k: int| 0 <= k < i && #[trigger] cands@[k] == after@.last();
                lemma_sorted_ordered(cands@, k, i as int);
            }
            if before@.len() > 0 {
                let k = choose|k: int| 0 <= k < i && #[trigger] cands@[k] == before@.last();
                lemma_sorted_ordered(cands@, k, i as int);
            }
            if within@.len() > 0 {
                let k = choose|k: int| 0 <= k < i && #[trigger] cands@[k] == within@.last();
                lemma_sorted_ordered(cands@, k, i as int);
            }
        }
        if d > last {
            let ghost pre = after@;
            after.push(d);
            proof {
                lemma_push_facts(pre, after@, d);
            }
        } else if d < first {
            let ghost pre = before@;
            before.push(d);
            proof {
                lemma_push_facts(pre, before@, d);
            }
        } else {
            let ghost pre = within@;
            within.push(d);
            proof {
                lemma_push_facts(pre, within@, d);
            }
        }
        i = i + 1;
    }
    proof {
        assert(cands@.subrange(0, cands@.len() as int) =~= cands@);
    }
    (after, before, within)
}

proof fn lemma_sorted_ordered(s: Seq<i64>, i: int, j: int)
    requires
        sorted_strict(s),
        0 <= i < j < s.len(),
    ensures
        s[i] < s[j],
    decreases j - i,
{
    if i + 1 < j {
        lemma_sorted_ordered(s, i, j - 1);
    }
}

proof fn lemma_push_facts(pre: Seq<i64>, post: Seq<i64>, d: i64)
    requires
        post == pre.push(d),
    ensures
        forall|x: i64| post.contains(x) <==> (pre.contains(x) || x == d),
        post.last() == d,
        pre.len() > 0 && sorted_strict(pre) && pre.last() < d ==> sorted_strict(post),
        pre.len() == 0 ==> sorted_strict(post),
{
    assert forall|x: i64| post.contains(x) implies (pre.contains(x) || x == d) by {
        let k = choose|k: int| 0 <= k < post.len() && #[trigger] post[k] == x;
        if k < pre.len() {
            assert(pre[k] == x);
        }
    }
    assert forall|x: i64| (pre.contains(x) || x == d) implies post.contains(x) by {
        if pre.contains(x) {
            let k = choose|k: int| 0 <= k < pre.len() && #[trigger] pre[k] == x;
            assert(post[k] == x);
        } else {
            assert(post[pre.len() as int] == d);
        }
    }
    if pre.len() > 0 && sorted_strict(pre) && pre.last() < d {
        assert forall|k: int| 0 < k < post.len() implies post[k - 1] < #[trigger] post[k] by {
            if k < pre.len() {
                assert(pre[k - 1] < pre[k]);
            }
        }
    }
}

/// A copy of the list with its elements in reverse order.
fn reverse_days(v: &Vec<i64>) -> (r: Vec<i64>)
    requires
        forall|a: int, b: int| 0 <= a < b < v@.len() ==> #[trigger] v@[a] != #[trigger] v@[b],
    ensures
        r@.len() == v@.len(),
        forall|k: int| 0 <= k < v@.len() ==> #[trigger] r@[k] == v@[v@.len() - 1 - k],
        forall|x: i64| r@.contains(x) <==> v@.contains(x),
        forall|a: int, b: int| 0 <= a < b < r@.len() ==> #[trigger] r@[a] != #[trigger] r@[b],
{
    let mut out: Vec<i64> = Vec::new();
    let mut i: usize = v.len();
    while i > 0
        invariant
            0 <= i <= v@.len(),
            out@.len() == v@.len() - i,
            forall|k: int| 0 <= k < out@.len() ==> #[trigger] out@[k] == v@[v@.len() - 1 - k],
        decreases i,
    {
        i = i - 1;
        out.push(v[i]);
    }
    proof {
        assert forall|x: i64| out@.contains(x) implies v@.contains(x) by {
            let k = choose|k: int| 0 <= k < out@.len() && #[trigger] out@[k] == x;
            assert(v@[v@.len() - 1 - k] == x);
        }
        assert forall|x: i64| v@.contains(x) implies out@.contains(x) by {
            let k = choose|k: int| 0 <= k < v@.len() && #[trigger] v@[k] == x;
            assert(out@[v@.len() - 1 - k] == x);
        }
        assert forall|a: int, b: int|
            0 <= a < b < out@.len() implies #[trigger] out@[a] != #[trigger] out@[b] by {
            assert(out@[a] == v@[v@.len() - 1 - a]);
            assert(out@[b] == v@[v@.len() - 1 - b]);
        }
    }
    out
}


/// The distance from `d` to the nearest date of the cluster; zero for an
/// empty cluster.
pub open spec fn min_cluster_distance(cluster: Seq<i64>, d: i64) -> int
    decreases cluster.len(),
{
    if cluster.len() == 0 {
        0
    } else {
        let dd: int = if cluster.last() >= d {
            cluster.last() - d
        } else {
            d - cluster.last()
        };
        if cluster.len() == 1 {
            dd
        } else {
            let rest = min_cluster_distance(cluster.drop_last(), d);
            if dd < rest {
                dd
            } else {
                rest
            }
        }
    }
}

/// Nearest-first order over candidate dates: smaller distance to the cluster
/// first, equal distances in ascending date order.
pub open spec fn dist_lex_le(cluster: Seq<i64>, a: i64, b: i64) -> bool {
    min_cluster_distance(cluster, a) < min_cluster_distance(cluster, b) || (min_cluster_distance(
        cluster,
        a,
    ) == min_cluster_distance(cluster, b) && a <= b)
}

/// The distance from `d` to the nearest date of the cluster.
fn min_distance(cluster: &Vec<i64>, d: i64) -> (r: i64)
    requires
        days_in_range(cluster@, 1, RATA_DIE_MAX as int),
        1 <= d <= RATA_DIE_MAX,
    ensures
        r >= 0,
        r == min_cluster_distance(cluster@, d),
{
    let mut best: i64 = 0;
    let mut started = false;
    let mut i: usize = 0;
    proof {
        assert(cluster@.take(0) =~= Seq::<i64>::empty());
    }
    while i < cluster.len()
        invariant
            0 <= i <= cluster@.len(),
            days_in_range(cluster@, 1, RATA_DIE_MAX as int),
            1 <= d <= RATA_DIE_MAX,
            best >= 0,
            started == (i > 0),
            !started ==> best == 0,
            started ==> best == min_cluster_distance(cluster@.take(i as int), d),
        decreases cluster@.len() - i,
    {
        let c = cluster[i];
        let dist = if c >= d {
            c - d
        } else {
            d - c
        };
        proof {
            let sub = cluster@.take(i + 1);
            assert(sub.drop_last() =~= cluster@.take(i as int));
            assert(sub.last() == cluster@[i as int]);
        }
        if !started || dist < best {
            best = dist;
            started = true;
        }
        i = i + 1;
    }
    proof {
        assert(cluster@.take(cluster@.len() as int) =~= cluster@);
        if cluster@.len() == 0 {
            assert(min_cluster_distance(cluster@, d) == 0);
        }
    }
    best
}

/// Sorts candidate dates by their distance to the cluster, nearest first,
/// equal distances kept in ascending date order.
#[verifier::rlimit(100)]
#[verifier::spinoff_prover]
fn sort_by_distance(v: Vec<i64>, cluster: &Vec<i64>) -> (r: Vec<i64>)
    requires
        days_in_range(v@, 1, RATA_DIE_MAX as int),
        days_in_range(cluster@, 1, RATA_DIE_MAX as int),
        forall|a: int, b: int| 0 <= a < b < v@.len() ==> #[trigger] v@[a] != #[trigger] v@[b],
    ensures
        r@.len() == v@.len(),
        forall|x: i64| r@.contains(x) <==> v@.contains(x),
        forall|a: int, b: int| 0 <= a < b < r@.len() ==> #[trigger] r@[a] != #[trigger] r@[b],
        days_in_range(r@, 1, RATA_DIE_MAX as int),
        forall|a: int, b: int|
            0 <= a < b < r@.len() ==> dist_lex_le(cluster@, #[trigger] r@[a], #[trigger] r@[b]),
{
    let ghost orig = v@;
    let mut rem = v;
    let mut out: Vec<i64> = Vec::new();
    while rem.len() > 0
        invariant
            out@.len() + rem@.len() == orig.len(),
            days_in_range(out@, 1, RATA_DIE_MAX as int),
            days_in_range(rem@, 1, RATA_DIE_MAX as int),
            days_in_range(cluster@, 1, RATA_DIE_MAX as int),
            forall|x: i64| orig.contains(x) <==> (out@.contains(x) || rem@.contains(x)),
            forall|x: i64| !(out@.contains(x) && rem@.contains(x)),
            forall|a: int, b: int| 0 <= a < b < out@.len() ==> #[trigger] out@[a] != #[trigger] out@[b],
            forall|a: int, b: int| 0 <= a < b < rem@.len() ==> #[trigger] rem@[a] != #[trigger] rem@[b],
            forall|a: int, b: int|
                0 <= a < b < out@.len() ==> dist_lex_le(cluster@, #[trigger] out@[a], #[trigger] out@[b]),
            forall|a: int, k: int|
                0 <= a < out@.len() && 0 <= k < rem@.len() ==> dist_lex_le(
                    cluster@,
                    #[trigger] out@[a],
                    #[trigger] rem@[k],
                ),
        decreases rem@.len(),
    {
        let mut bi: usize = 0;
        let mut bd = min_distance(cluster, rem[0]);
        let mut j: usize = 1;
        while j < rem.len()
            invariant
                0 <= bi < j <= rem@.len(),
                rem@.len() > 0,
                days_in_range(rem@, 1, RATA_DIE_MAX as int),
                days_in_range(cluster@, 1, RATA_DIE_MAX as int),
                bd >= 0,
                bd == min_cluster_distance(cluster@, rem@[bi as int]),
                forall|k: int| 0 <= k < j ==> dist_lex_le(cluster@, rem@[bi as int], #[trigger] rem@[k]),
            decreases rem@.len() - j,
        {
            let jd = min_distance(cluster, rem[j]);
            if jd < bd || (jd == bd && rem[j] < rem[bi]) {
                bi = j;
                bd = jd;
            }
            j = j + 1;
        }
        let ghost premo = out@;
        let ghost prer = rem@;
        let x = rem.remove(bi);
        out.push(x);
        proof {
            assert(x == prer[bi as int]);
            assert(forall|k: int| 0 <= k < prer.len() ==> dist_lex_le(cluster@, x, #[trigger] prer[k]));
            assert(prer.contains(x));
            assert forall|y: i64| rem@.contains(y) implies prer.contains(y) by {
                let k = choose|k: int| 0 <= k < rem@.len() && #[trigger] rem@[k] == y;
                if k < bi {
                    assert(prer[k] == y);
                } else {
                    assert(prer[k + 1] == y);
                }
            }
            assert forall|y: i64| prer.contains(y) && y != x implies rem@.contains(y) by {
                let k = choose|k: int| 0 <= k < prer.len() && #[trigger] prer[k] == y;
                if k < bi {
                    assert(rem@[k] == y);
                } else if k > bi {
                    assert(rem@[k - 1] == y);
                }
            }
            assert(!rem@.contains(x)) by {
                if rem@.contains(x) {
                    let k = choose|k: int| 0 <= k < rem@.len() && #[trigger] rem@[k] == x;
                    if k < bi {
                        assert(prer[k] == x && prer[bi as int] == x);
                    } else {
                        assert(prer[k + 1] == x && prer[bi as int] == x);
                    }
                }
            }
            lemma_push_facts_any(premo, out@, x);
            assert forall|a: int, b: int|
                0 <= a < b < out@.len() implies #[trigger] out@[a] != #[trigger] out@[b] by {
                if b == out@.len() - 1 {
                    assert(premo.contains(out@[a]));
                }
            }
            assert forall|a: int, b: int|
                0 <= a < b < rem@.len() implies #[trigger] rem@[a] != #[trigger] rem@[b] by {
                let pa: int = if a < bi {
                    a
                } else {
                    a + 1
                };
                let pb: int = if b < bi {
                    b
                } else {
                    b + 1
                };
                assert(rem@[a] == prer[pa]);
                assert(rem@[b] == prer[pb]);
            }
        }
    }
    proof {
        assert forall|x: i64| out@.contains(x) implies orig.contains(x) by {}
        assert forall|x: i64| orig.contains(x) implies out@.contains(x) by {
            assert(out@.contains(x) || rem@.contains(x));
        }
    }
    out
}

proof fn lemma_push_facts_any(pre: Seq<i64>, post: Seq<i64>, d: i64)
    requires
        post == pre.push(d),
    ensures
        forall|x: i64| post.contains(x) <==> (pre.contains(x) || x == d),
        post.last() == d,
{
    lemma_push_facts(pre, post, d);
}


/// The slot the two-stack rule binds from one stack: entries are popped from
/// the back until one names an unfilled slot.
pub open spec fn pick_from_stack(stack: Seq<usize>, assigned: Seq<Option<i64>>) -> Option<usize>
    decreases stack.len(),
{
    if stack.len() == 0 {
        None
    } else if assigned[stack.last() as int] is None {
        Some(stack.last())
    } else {
        pick_from_stack(stack.drop_last(), assigned)
    }
}

/// What is left of a stack once the two-stack rule has bound a slot from it:
/// every inspected entry is popped, the binding one included.
pub open spec fn stack_after_pick(stack: Seq<usize>, assigned: Seq<Option<i64>>) -> Seq<usize>
    decreases stack.len(),
{
    if stack.len() == 0 {
        stack
    } else if assigned[stack.last() as int] is None {
        stack.drop_last()
    } else {
        stack_after_pick(stack.drop_last(), assigned)
    }
}

/// Pops rest-date indices from the back of the preference stack, then the
/// fallback stack, until an unmatched one is found, and binds it to the
/// make-up date; with every slot already bound, nothing changes.
fn assign_makeup(
    assigned: &mut Vec<Option<i64>>,
    preferred_indices: &mut Vec<usize>,
    fallback_indices: &mut Vec<usize>,
    date: i64,
)
    requires
        forall|k: int|
            0 <= k < old(preferred_indices)@.len() ==> (#[trigger] old(preferred_indices)@[k])
                < old(assigned)@.len(),
        forall|k: int|
            0 <= k < old(fallback_indices)@.len()
                ==> (#[trigger] old(fallback_indices)@[k]) < old(assigned)@.len(),
        forall|i: usize|
            i < old(assigned)@.len() && old(assigned)@[i as int] is None
                ==> old(fallback_indices)@.contains(i),
    ensures
        final(assigned)@.len() == old(assigned)@.len(),
        exists|k: int|
            0 <= k <= old(preferred_indices)@.len()
                && final(preferred_indices)@ == old(preferred_indices)@.subrange(0, k),
        exists|k: int|
            0 <= k <= old(fallback_indices)@.len()
                && final(fallback_indices)@ == old(fallback_indices)@.subrange(0, k),
        (exists|i: usize| i < old(assigned)@.len() && old(assigned)@[i as int] is None)
            ==> (exists|i: int|
            0 <= i < old(assigned)@.len() && old(assigned)@[i] is None
                && final(assigned)@ == old(assigned)@.update(i, Some(date))),
        (forall|i: usize|
            i < old(assigned)@.len() ==> (#[trigger] old(assigned)@[i as int]) is Some)
            ==> final(assigned)@ == old(assigned)@,
        match pick_from_stack(old(preferred_indices)@, old(assigned)@) {
            Some(idx) => final(assigned)@ == old(assigned)@.update(idx as int, Some(date))
                && final(preferred_indices)@ == stack_after_pick(
                old(preferred_indices)@,
                old(assigned)@,
            ) && final(fallback_indices)@ == old(fallback_indices)@,
            None => final(preferred_indices)@ == Seq::<usize>::empty() && match pick_from_stack(
                old(fallback_indices)@,
                old(assigned)@,
            ) {
                Some(idx) => final(assigned)@ == old(assigned)@.update(idx as int, Some(date))
                    && final(fallback_indices)@ == stack_after_pick(
                    old(fallback_indices)@,
                    old(assigned)@,
                ),
                None => final(assigned)@ == old(assigned)@ && final(fallback_indices)@ == Seq::<
                    usize,
                >::empty(),
            },
        },
        forall|i: usize|
            i < final(assigned)@.len() && final(assigned)@[i as int] is None
                ==> final(fallback_indices)@.contains(i),
{
    let ghost olda = assigned@;
    let ghost oldp = preferred_indices@;
    let ghost oldf = fallback_indices@;
    proof {
        assert(oldp.subrange(0, oldp.len() as int) =~= oldp);
        assert(oldf.subrange(0, oldf.len() as int) =~= oldf);
    }
    while preferred_indices.len() > 0
        invariant
            assigned@ == olda,
            olda == old(assigned)@,
            oldp == old(preferred_indices)@,
            oldf == old(fallback_indices)@,
            fallback_indices@ == oldf,
            exists|k: int| 0 <= k <= oldp.len() && preferred_indices@ == oldp.subrange(0, k),
            forall|k: int| 0 <= k < oldp.len() ==> (#[trigger] oldp[k]) < olda.len(),
            forall|i: usize| i < olda.len() && olda[i as int] is None ==> oldf.contains(i),
            pick_from_stack(oldp, olda) == pick_from_stack(preferred_indices@, olda),
            pick_from_stack(oldp, olda) is Some ==> stack_after_pick(oldp, olda)
                == stack_after_pick(preferred_indices@, olda),
        decreases preferred_indices@.len(),
    {
        let ghost prestack = preferred_indices@;
        let idx = match preferred_indices.pop() {
            Some(idx) => idx,
            None => {
                proof {
                    assert(false);
                }
                0
            },
        };
        proof {
            let k = choose|k: int| 0 <= k <= oldp.len() && prestack == oldp.subrange(0, k);
            assert(idx == prestack[prestack.len() - 1]);
            assert(prestack[prestack.len() - 1] == oldp[k - 1]);
            assert(preferred_indices@ =~= oldp.subrange(0, k - 1));
            assert(idx < olda.len());
        }
        if assigned[idx].is_none() {
            proof {
                assert(olda[idx as int] is None);
                assert(pick_from_stack(prestack, olda) == Some(idx));
                assert(stack_after_pick(prestack, olda) == prestack.drop_last());
            }
            assigned.set(idx, Some(date));
            proof {
                assert(assigned@ == olda.update(idx as int, Some(date)));
                assert forall|i: usize|
                    i < assigned@.len() && assigned@[i as int] is None implies fallback_indices@
                    .contains(i) by {
                    assert(olda[i as int] is None);
                    assert(oldf.contains(i));
                }
                assert(fallback_indices@ =~= oldf.subrange(0, oldf.len() as int));
            }
            return;
        }
    }
    proof {
        assert(preferred_indices@ =~= oldp.subrange(0, 0));
        assert(fallback_indices@ =~= oldf.subrange(0, oldf.len() as int));
    }
    while fallback_indices.len() > 0
        invariant
            assigned@ == olda,
            olda == old(assigned)@,
            oldp == old(preferred_indices)@,
            oldf == old(fallback_indices)@,
            preferred_indices@ == oldp.subrange(0, 0),
            pick_from_stack(oldp, olda) is None,
            exists|k: int| 0 <= k <= oldf.len() && fallback_indices@ == oldf.subrange(0, k),
            forall|k: int| 0 <= k < oldf.len() ==> (#[trigger] oldf[k]) < olda.len(),
            forall|i: usize|
                i < olda.len() && olda[i as int] is None ==> fallback_indices@.contains(i),
            pick_from_stack(oldf, olda) == pick_from_stack(fallback_indices@, olda),
            pick_from_stack(oldf, olda) is Some ==> stack_after_pick(oldf, olda)
                == stack_after_pick(fallback_indices@, olda),
        decreases fallback_indices@.len(),
    {
        let ghost prestack = fallback_indices@;
        let idx = match fallback_indices.pop() {
            Some(idx) => idx,
            None => {
                proof {
                    assert(false);
                }
                0
            },
        };
        proof {
            let k = choose|k: int| 0 <= k <= oldf.len() && prestack == oldf.subrange(0, k);
            assert(idx == prestack[prestack.len() - 1]);
            assert(prestack[prestack.len() - 1] == oldf[k - 1]);
            assert(fallback_indices@ =~= oldf.subrange(0, k - 1));
            assert(fallback_indices@ =~= prestack.subrange(0, prestack.len() - 1));
            assert(idx < olda.len());
        }
        if assigned[idx].is_none() {
            proof {
                assert(olda[idx as int] is None);
                assert(pick_from_stack(prestack, olda) == Some(idx));
                assert(stack_after_pick(prestack, olda) == prestack.drop_last());
            }
            assigned.set(idx, Some(date));
            proof {
                assert(assigned@ == olda.update(idx as int, Some(date)));
                assert forall|i: usize|
                    i < assigned@.len() && assigned@[i as int] is None implies fallback_indices@
                    .contains(i) by {
                    assert(olda[i as int] is None);
                    assert(i != idx);
                    assert(prestack.contains(i));
                    let m = choose|m: int|
                        0 <= m < prestack.len() && #[trigger] prestack[m] == i;
                    assert(m < prestack.len() - 1);
                    assert(fallback_indices@[m] == i);
                }
            }
            return;
        }
        proof {
            assert forall|i: usize|
                i < olda.len() && olda[i as int] is None implies fallback_indices@.contains(
                i,
            ) by {
                assert(prestack.contains(i));
                let m = choose|m: int| 0 <= m < prestack.len() && #[trigger] prestack[m] == i;
                if m == prestack.len() - 1 {
                    assert(olda[idx as int] is Some);
                    assert(false);
                }
                assert(fallback_indices@[m] == i);
            }
            assert(olda[idx as int] is Some);
            assert(pick_from_stack(prestack, olda) == pick_from_stack(fallback_indices@, olda));
            if pick_from_stack(oldf, olda) is Some {
                assert(stack_after_pick(prestack, olda) == stack_after_pick(
                    fallback_indices@,
                    olda,
                ));
            }
        }
    }
    proof {
        assert forall|i: usize| i < olda.len() implies (#[trigger] olda[i as int]) is Some by {
            if olda[i as int] is None {
                assert(fallback_indices@.contains(i));
            }
        }
        assert(fallback_indices@ =~= oldf.subrange(0, 0));
        assert(pick_from_stack(oldf, olda) == pick_from_stack(Seq::<usize>::empty(), olda));
    }
}

pub open spec fn min_int(a: int, b: int) -> int {
    if a < b {
        a
    } else {
        b
    }
}

/// The candidate order of a cluster: the dates after it ascending, then the
/// dates before it nearest first, then the dates within its span nearest
/// first.
#[verifier::rlimit(100)]
fn build_candidate_order(candidates: &Vec<i64>, first: i64, last: i64, cluster: &Vec<i64>) -> (order: Vec<i64>)
    requires
        sorted_strict(candidates@),
        first <= last,
        days_in_range(candidates@, 1, RATA_DIE_MAX as int),
        days_in_range(cluster@, 1, RATA_DIE_MAX as int),
    ensures
        order@.len() == candidates@.len(),
        forall|k: int| 0 <= k < order@.len() ==> candidates@.contains(#[trigger] order@[k]),
        forall|a: int, b: int|
            0 <= a < b < order@.len() ==> #[trigger] order@[a] != #[trigger] order@[b],
        ({
            let above = candidates@.filter(above_pred(last as int));
            let below = candidates@.filter(below_pred(first as int));
            let la = above.len() as int;
            let lb = below.len() as int;
            &&& order@.subrange(0, la) == above
            &&& order@.subrange(la, la + lb) == below.reverse()
            &&& forall|x: i64|
                order@.subrange(la + lb, order@.len() as int).contains(x)
                    <==> candidates@.filter(within_pred(first as int, last as int)).contains(x)
            &&& forall|a: int, b: int|
                la + lb <= a < b < order@.len() ==> dist_lex_le(
                    cluster@,
                    #[trigger] order@[a],
                    #[trigger] order@[b],
                )
        }),
{
    let (after, before, within) = split_buckets(candidates, first, last);
    proof {
        assert forall|a: int, b: int|
            0 <= a < b < before@.len() implies #[trigger] before@[a] != #[trigger] before@[b] by {
            lemma_sorted_ordered(before@, a, b);
        }
        assert forall|a: int, b: int|
            0 <= a < b < within@.len() implies #[trigger] within@[a] != #[trigger] within@[b] by {
            lemma_sorted_ordered(within@, a, b);
        }
        assert forall|k: int|
            0 <= k < within@.len() implies 1 <= #[trigger] within@[k] <= RATA_DIE_MAX by {
            assert(within@.contains(within@[k]));
            assert(candidates@.contains(within@[k]));
            let m = choose|m: int|
                0 <= m < candidates@.len() && #[trigger] candidates@[m] == within@[k];
        }
    }
    let mut before_rev = reverse_days(&before);
    let mut within_sorted = sort_by_distance(within, cluster);
    let ghost aseq = after@;
    let ghost bseq = before_rev@;
    let ghost wseq = within_sorted@;
    let ghost la = after@.len();
    let ghost lb = before_rev@.len();
    let mut order = after;
    order.append(&mut before_rev);
    order.append(&mut within_sorted);
    proof {
        assert(order@ =~= aseq + bseq + wseq);
        assert forall|k: int|
            0 <= k < order@.len() implies candidates@.contains(#[trigger] order@[k]) by {
            if k < la {
                assert(aseq[k] == order@[k]);
                assert(aseq.contains(order@[k]));
            } else if k < la + lb {
                assert(bseq[k - la] == order@[k]);
                assert(bseq.contains(order@[k]));
            } else {
                assert(wseq[k - la - lb] == order@[k]);
                assert(wseq.contains(order@[k]));
            }
        }
        assert forall|a: int, b: int|
            0 <= a < b < order@.len() implies #[trigger] order@[a] != #[trigger] order@[b] by {
            let oa = order@[a];
            let ob = order@[b];
            if a < la {
                assert(aseq[a] == oa);
                assert(aseq.contains(oa));
                assert(oa > last);
            } else if a < la + lb {
                assert(bseq[a - la] == oa);
                assert(bseq.contains(oa));
                assert(oa < first);
            } else {
                assert(wseq[a - la - lb] == oa);
                assert(wseq.contains(oa));
                assert(first <= oa <= last);
            }
            if b < la {
                assert(aseq[b] == ob);
                assert(aseq.contains(ob));
                assert(ob > last);
            } else if b < la + lb {
                assert(bseq[b - la] == ob);
                assert(bseq.contains(ob));
                assert(ob < first);
            } else {
                assert(wseq[b - la - lb] == ob);
                assert(wseq.contains(ob));
                assert(first <= ob <= last);
            }
            if a < la && b < la {
                lemma_sorted_ordered(aseq, a, b);
            }
        }
        assert(order@.subrange(0, la as int) =~= aseq);
        assert(order@.subrange(la as int, (la + lb) as int) =~= bseq);
        assert(bseq =~= candidates@.filter(below_pred(first as int)).reverse());
        let wpart = order@.subrange((la + lb) as int, order@.len() as int);
        assert(wpart =~= wseq);
        assert forall|a: int, b: int|
            la + lb <= a < b < order@.len() implies dist_lex_le(
            cluster@,
            #[trigger] order@[a],
            #[trigger] order@[b],
        ) by {
            assert(order@[a] == wseq[a - la - lb]);
            assert(order@[b] == wseq[b - la - lb]);
        }
    }
    order
}

/// Assigns the candidates, in order, to the cluster's rest-date slots, the
/// back of the workday-preference stack first, then the back of the all-dates
/// stack: as many slots get filled as either side allows, each with a
/// distinct candidate.
#[verifier::rlimit(100)]
fn run_assignment(cluster: &Vec<i64>, order: &Vec<i64>) -> (assigned: Vec<Option<i64>>)
    requires
        cluster@.len() > 0,
        days_in_range(cluster@, 1, RATA_DIE_MAX as int),
        forall|a: int, b: int|
            0 <= a < b < order@.len() ==> #[trigger] order@[a] != #[trigger] order@[b],
    ensures
        assigned@.len() == cluster@.len(),
        count_some(assigned@) == min_int(order@.len() as int, cluster@.len() as int),
        forall|i: int|
            0 <= i < assigned@.len() && (#[trigger] assigned@[i]) is Some ==> order@.contains(
                assigned@[i].unwrap(),
            ),
        forall|a: int, b: int|
            0 <= a < b < assigned@.len() && (#[trigger] assigned@[a]) is Some
                && (#[trigger] assigned@[b]) is Some ==> assigned@[a].unwrap()
                != assigned@[b].unwrap(),
{
    let n = cluster.len();
    let mut preferred_indices: Vec<usize> = Vec::new();
    let mut i: usize = 0;
    while i < n
        invariant
            0 <= i <= n,
            n == cluster@.len(),
            days_in_range(cluster@, 1, RATA_DIE_MAX as int),
            forall|k: int| 0 <= k < preferred_indices@.len() ==> (#[trigger] preferred_indices@[k])
                < n,
        decreases n - i,
    {
        if is_workday(cluster[i]) {
            preferred_indices.push(i);
        }
        i = i + 1;
    }
    if preferred_indices.len() == 0 {
        let mut j: usize = 0;
        while j < n
            invariant
                0 <= j <= n,
                preferred_indices@.len() == j,
                forall|k: int| 0 <= k < j ==> (#[trigger] preferred_indices@[k]) == k,
            decreases n - j,
        {
            preferred_indices.push(j);
            j = j + 1;
        }
    }
    let mut fallback_indices: Vec<usize> = Vec::new();
    let mut j: usize = 0;
    while j < n
        invariant
            0 <= j <= n,
            fallback_indices@.len() == j,
            forall|k: int| 0 <= k < j ==> (#[trigger] fallback_indices@[k]) == k,
        decreases n - j,
    {
        fallback_indices.push(j);
        j = j + 1;
    }
    let mut assigned: Vec<Option<i64>> = Vec::new();
    let mut j: usize = 0;
    while j < n
        invariant
            0 <= j <= n,
            assigned@.len() == j,
            forall|k: int| 0 <= k < j ==> (#[trigger] assigned@[k]) is None,
        decreases n - j,
    {
        assigned.push(None);
        j = j + 1;
    }
    proof {
        lemma_count_none_zero(assigned@);
        assert forall|i: usize|
            i < n && assigned@[i as int] is None implies fallback_indices@.contains(i) by {
            assert(fallback_indices@[i as int] == i);
        }
    }

    let mut j: usize = 0;
    while j < order.len()
        invariant
            0 <= j <= order@.len(),
            n == cluster@.len(),
            assigned@.len() == n,
            forall|a: int, b: int|
                0 <= a < b < order@.len() ==> #[trigger] order@[a] != #[trigger] order@[b],
            forall|k: int| 0 <= k < preferred_indices@.len() ==> (#[trigger] preferred_indices@[k])
                < n,
            forall|k: int| 0 <= k < fallback_indices@.len() ==> (#[trigger] fallback_indices@[k])
                < n,
            forall|i: usize|
                i < n && assigned@[i as int] is None ==> fallback_indices@.contains(i),
            count_some(assigned@) == min_int(j as int, n as int),
            forall|i: int|
                0 <= i < n && (#[trigger] assigned@[i]) is Some ==> (exists|m: int|
                    0 <= m < j && order@[m] == assigned@[i].unwrap()),
            forall|a: int, b: int|
                0 <= a < b < n && (#[trigger] assigned@[a]) is Some && (#[trigger] assigned@[b])
                    is Some ==> assigned@[a].unwrap() != assigned@[b].unwrap(),
        decreases order@.len() - j,
    {
        let date = order[j];
        let ghost prea = assigned@;
        let ghost prep = preferred_indices@;
        let ghost pref = fallback_indices@;
        assign_makeup(&mut assigned, &mut preferred_indices, &mut fallback_indices, date);
        proof {
            let kp = choose|k: int| 0 <= k <= prep.len() && preferred_indices@ == prep.subrange(0, k);
            let kf = choose|k: int| 0 <= k <= pref.len() && fallback_indices@ == pref.subrange(0, k);
            lemma_count_some_bounds(prea);
            if exists|i: usize| i < prea.len() && prea[i as int] is None {
                let i = choose|i: int|
                    0 <= i < prea.len() && prea[i] is None && assigned@ == prea.update(
                        i,
                        Some(date),
                    );
                lemma_count_some_update(prea, i, date);
                assert(prea[(i as usize) as int] is None);
                assert(count_some(prea) < n);
                assert forall|a: int, b: int|
                    0 <= a < b < n && (#[trigger] assigned@[a]) is Some && (#[trigger] assigned@[b])
                        is Some implies assigned@[a].unwrap() != assigned@[b].unwrap() by {
                    if a != i && b != i {
                        assert(prea[a] == assigned@[a]);
                        assert(prea[b] == assigned@[b]);
                    } else if a == i {
                        assert(prea[b] == assigned@[b]);
                        let m = choose|m: int| 0 <= m < j && order@[m] == prea[b].unwrap();
                        assert(order@[m] != order@[j as int]);
                    } else {
                        assert(prea[a] == assigned@[a]);
                        let m = choose|m: int| 0 <= m < j && order@[m] == prea[a].unwrap();
                        assert(order@[m] != order@[j as int]);
                    }
                }
            } else {
                assert(assigned@ == prea);
                lemma_count_some_full(prea);
            }
        }
        j = j + 1;
    }
    assigned
}

/// Matches a cluster's rest dates against its candidate make-up dates, in the
/// candidate order after, before (nearest first), within (nearest first);
/// each candidate binds the unmatched rest date popped from the back of the
/// workday-preference stack, else from the back of the all-dates stack.
/// Every pair binds a rest date of the cluster to a distinct candidate, and
/// as many pairs are made as either side allows.
#[verifier::rlimit(100)]
pub fn match_cluster(cluster: &Vec<i64>, candidates: &Vec<i64>) -> (pairs: Vec<(i64, i64)>)
    requires
        sorted_strict(cluster@),
        cluster@.len() > 0,
        sorted_strict(candidates@),
        days_in_range(cluster@, 1, RATA_DIE_MAX as int),
        days_in_range(candidates@, 1, RATA_DIE_MAX as int),
    ensures
        forall|k: int|
            0 <= k < pairs@.len() ==> cluster@.contains((#[trigger] pairs@[k]).0)
                && candidates@.contains(pairs@[k].1),
        sorted_strict(pairs@.map_values(|p: (i64, i64)| p.0)),
        forall|a: int, b: int|
            0 <= a < b < pairs@.len() ==> (#[trigger] pairs@[a]).1 != (#[trigger] pairs@[b]).1,
        pairs@.len() == min_int(cluster@.len() as int, candidates@.len() as int),
{
    let n = cluster.len();
    let first = cluster[0];
    let last = cluster[n - 1];
    proof {
        if n > 1 {
            lemma_sorted_ordered(cluster@, 0, n - 1);
        }
    }
    let order = build_candidate_order(candidates, first, last, cluster);
    let assigned = run_assignment(cluster, &order);

    let mut pairs: Vec<(i64, i64)> = Vec::new();
    let mut i: usize = 0;
    proof {
        assert(assigned@.subrange(0, 0) =~= Seq::<Option<i64>>::empty());
    }
    while i < n
        invariant
            0 <= i <= n,
            n == cluster@.len(),
            assigned@.len() == n,
            sorted_strict(cluster@),
            forall|k: int| 0 <= k < order@.len() ==> candidates@.contains(#[trigger] order@[k]),
            forall|ii: int|
                0 <= ii < n && (#[trigger] assigned@[ii]) is Some ==> order@.contains(
                    assigned@[ii].unwrap(),
                ),
            forall|a: int, b: int|
                0 <= a < b < n && (#[trigger] assigned@[a]) is Some && (#[trigger] assigned@[b])
                    is Some ==> assigned@[a].unwrap() != assigned@[b].unwrap(),
            pairs@.len() == count_some(assigned@.subrange(0, i as int)),
            forall|k: int|
                0 <= k < pairs@.len() ==> (exists|ii: int|
                    0 <= ii < i && cluster@[ii] == (#[trigger] pairs@[k]).0 && assigned@[ii]
                        == Some(pairs@[k].1)),
            sorted_strict(pairs@.map_values(|p: (i64, i64)| p.0)),
            forall|a: int, b: int|
                0 <= a < b < pairs@.len() ==> (#[trigger] pairs@[a]).1 != (#[trigger] pairs@[b]).1,
        decreases n - i,
    {
        proof {
            let sub = assigned@.subrange(0, i + 1);
            assert(sub.drop_last() =~= assigned@.subrange(0, i as int));
            assert(sub.last() == assigned@[i as int]);
        }
        match assigned[i] {
            Some(v) => {
                let ghost prep = pairs@;
                pairs.push((cluster[i], v));
                proof {
                    assert forall|a: int, b: int|
                        0 <= a < b < pairs@.len() implies (#[trigger] pairs@[a]).1
                        != (#[trigger] pairs@[b]).1 by {
                        if b == pairs@.len() - 1 {
                            let ii = choose|ii: int|
                                0 <= ii < i && cluster@[ii] == prep[a].0 && assigned@[ii] == Some(
                                    prep[a].1,
                                );
                            assert(assigned@[ii].unwrap() != assigned@[i as int].unwrap());
                        } else {
                            assert(prep[a] == pairs@[a]);
                            assert(prep[b] == pairs@[b]);
                        }
                    }
                    let newkeys = pairs@.map_values(|p: (i64, i64)| p.0);
                    assert forall|k: int| 0 < k < newkeys.len() implies newkeys[k - 1]
                        < #[trigger] newkeys[k] by {
                        if k == newkeys.len() - 1 {
                            let ii = choose|ii: int|
                                0 <= ii < i && cluster@[ii] == prep[k - 1].0 && assigned@[ii]
                                    == Some(prep[k - 1].1);
                            lemma_sorted_ordered(cluster@, ii, i as int);
                        } else {
                            let prekeys = prep.map_values(|p: (i64, i64)| p.0);
                            assert(prekeys[k - 1] == newkeys[k - 1]);
                            assert(prekeys[k] == newkeys[k]);
                        }
                    }
                }
            },
            None => {},
        }
        i = i + 1;
    }
    proof {
        assert(assigned@.subrange(0, n as int) =~= assigned@);
        assert forall|k: int|
            0 <= k < pairs@.len() implies cluster@.contains((#[trigger] pairs@[k]).0)
            && candidates@.contains(pairs@[k].1) by {
            let ii = choose|ii: int|
                0 <= ii < n && cluster@[ii] == pairs@[k].0 && assigned@[ii] == Some(pairs@[k].1);
            assert(cluster@.contains(cluster@[ii]));
            assert(order@.contains(assigned@[ii].unwrap()));
            let m = choose|m: int| 0 <= m < order@.len() && #[trigger] order@[m] == pairs@[k].1;
        }
    }
    pairs
}

/// Whether the pair binds a rest date of one of the rest-date clusters to a
/// make-up date within that cluster's search window.
pub open spec fn pair_in_cluster_window(rest: Seq<i64>, p: (i64, i64)) -> bool {
    exists|ci: int|
        0 <= ci < cluster_split(rest, CLUSTER_GAP_DAYS as int).len()
            && (#[trigger] cluster_split(rest, CLUSTER_GAP_DAYS as int)[ci]).contains(p.0)
            && cluster_split(rest, CLUSTER_GAP_DAYS as int)[ci][0] - MAKEUP_WINDOW_DAYS <= p.1
            <= cluster_split(rest, CLUSTER_GAP_DAYS as int)[ci].last() + MAKEUP_WINDOW_DAYS
}

#[verifier::rlimit(100)]
#[verifier::spinoff_prover]
proof fn lemma_cluster_split_each(s: Seq<i64>, gap: int)
    requires
        sorted_strict(s),
    ensures
        forall|ci: int|
            0 <= ci < cluster_split(s, gap).len() ==> (#[trigger] cluster_split(s, gap)[ci]).len()
                > 0 && sorted_strict(cluster_split(s, gap)[ci]),
        forall|ci: int, x: int|
            0 <= ci < cluster_split(s, gap).len() && 0 <= x < (#[trigger] cluster_split(
                s,
                gap,
            )[ci]).len() ==> s.contains(#[trigger] cluster_split(s, gap)[ci][x]),
    decreases s.len(),
{
    if s.len() > 0 {
        let n = run_len(s, gap);
        lemma_run_len_bounds(s, gap);
        let head = s.take(n);
        let tail = s.skip(n);
        assert forall|a: int, b: int|
            0 <= a < b < tail.len() implies #[trigger] tail[a] < #[trigger] tail[b] by {
            lemma_sorted_ordered(s, n + a, n + b);
        }
        assert(sorted_strict(tail));
        lemma_cluster_split_each(tail, gap);
        let cs = cluster_split(s, gap);
        let cst = cluster_split(tail, gap);
        assert(cs == seq![head] + cst);
        assert forall|ci: int|
            0 <= ci < cs.len() implies (#[trigger] cs[ci]).len() > 0 && sorted_strict(cs[ci]) by {
            if ci == 0 {
                assert(cs[0] == head);
                assert forall|k: int| 0 < k < head.len() implies head[k - 1] < #[trigger] head[k]
                    by {
                    assert(head[k] == s[k]);
                    assert(head[k - 1] == s[k - 1]);
                }
            } else {
                assert(cs[ci] == cst[ci - 1]);
            }
        }
        assert forall|ci: int, x: int|
            0 <= ci < cs.len() && 0 <= x < (#[trigger] cs[ci]).len() implies s.contains(
            #[trigger] cs[ci][x],
        ) by {
            if ci == 0 {
                assert(cs[0][x] == s[x]);
            } else {
                assert(cs[ci] == cst[ci - 1]);
                assert(tail.contains(cs[ci][x]));
                let m = choose|m: int| 0 <= m < tail.len() && #[trigger] tail[m] == cs[ci][x];
                assert(s[n + m] == cs[ci][x]);
            }
        }
    }
}

#[verifier::rlimit(100)]
#[verifier::spinoff_prover]
proof fn lemma_cluster_split_ordered(s: Seq<i64>, gap: int)
    requires
        sorted_strict(s),
    ensures
        forall|ci: int, cj: int, x: int, y: int|
            0 <= ci < cj < cluster_split(s, gap).len() && 0 <= x < cluster_split(s, gap)[ci].len()
                && 0 <= y < cluster_split(s, gap)[cj].len() ==> #[trigger] cluster_split(
                s,
                gap,
            )[ci][x] < #[trigger] cluster_split(s, gap)[cj][y],
    decreases s.len(),
{
    if s.len() > 0 {
        let n = run_len(s, gap);
        lemma_run_len_bounds(s, gap);
        let head = s.take(n);
        let tail = s.skip(n);
        assert forall|a: int, b: int|
            0 <= a < b < tail.len() implies #[trigger] tail[a] < #[trigger] tail[b] by {
            lemma_sorted_ordered(s, n + a, n + b);
        }
        assert(sorted_strict(tail));
        lemma_cluster_split_each(tail, gap);
        lemma_cluster_split_ordered(tail, gap);
        let cs = cluster_split(s, gap);
        let cst = cluster_split(tail, gap);
        assert(cs == seq![head] + cst);
        assert forall|ci: int, cj: int, x: int, y: int|
            0 <= ci < cj < cs.len() && 0 <= x < cs[ci].len() && 0 <= y < cs[cj].len() implies
            #[trigger] cs[ci][x] < #[trigger] cs[cj][y] by {
            if ci == 0 {
                assert(cs[0][x] == s[x]);
                assert(cs[cj] == cst[cj - 1]);
                assert(tail.contains(cs[cj][y]));
                let m = choose|m: int| 0 <= m < tail.len() && #[trigger] tail[m] == cs[cj][y];
                assert(s[n + m] == cs[cj][y]);
                lemma_sorted_ordered(s, x, n + m);
            } else {
                assert(cs[ci] == cst[ci - 1]);
                assert(cs[cj] == cst[cj - 1]);
            }
        }
    }
}

/// Matches one group's rest dates to its make-up dates: clusters the rest
/// dates, and matches each cluster against the still-unconsumed make-up dates
/// that fall in its search window, consuming them. Every pair binds a rest
/// date to a make-up date of the group within the cluster's window, and no
/// make-up date is bound twice.
#[verifier::rlimit(100)]
#[verifier::spinoff_prover]
pub fn match_group(rest: &Vec<i64>, makeup: &Vec<i64>) -> (pairs: Vec<(i64, i64)>)
    requires
        sorted_strict(rest@),
        sorted_strict(makeup@),
        days_in_range(rest@, 1, RATA_DIE_MAX as int),
        days_in_range(makeup@, 1, RATA_DIE_MAX as int),
    ensures
        forall|k: int|
            0 <= k < pairs@.len() ==> rest@.contains((#[trigger] pairs@[k]).0) && makeup@.contains(
                pairs@[k].1,
            ) && pair_in_cluster_window(rest@, pairs@[k]),
        sorted_strict(pairs@.map_values(|p: (i64, i64)| p.0)),
        forall|a: int, b: int|
            0 <= a < b < pairs@.len() ==> (#[trigger] pairs@[a]).1 != (#[trigger] pairs@[b]).1,
        forall|ci: int|
            0 <= ci < cluster_split(rest@, CLUSTER_GAP_DAYS as int).len() ==> (#[trigger] pairs@.filter(
                in_cluster_pred(cluster_split(rest@, CLUSTER_GAP_DAYS as int)[ci]),
            )).len() == min_int(
                cluster_split(rest@, CLUSTER_GAP_DAYS as int)[ci].len() as int,
                window_candidates(
                    cluster_pool(makeup@, cluster_split(rest@, CLUSTER_GAP_DAYS as int), ci),
                    cluster_split(rest@, CLUSTER_GAP_DAYS as int)[ci],
                ).len() as int,
            ),
{
    let clusters = cluster_dates(rest, CLUSTER_GAP_DAYS);
    proof {
        lemma_cluster_split_each(rest@, CLUSTER_GAP_DAYS as int);
        lemma_cluster_split_ordered(rest@, CLUSTER_GAP_DAYS as int);
    }
    let ghost cs = cluster_split(rest@, CLUSTER_GAP_DAYS as int);
    let mut available: Vec<i64> = crate::types::copy_vec(makeup);
    let mut pairs: Vec<(i64, i64)> = Vec::new();
    proof {
        assert(available@ == cluster_pool(makeup@, cs, 0));
        assert forall|ci: int|
            0 <= ci < cs.len() implies #[trigger] pairs@.filter(in_cluster_pred(cs[ci])) == Seq::<
            (i64, i64),
        >::empty() by {
            lemma_filter_none(pairs@, in_cluster_pred(cs[ci]));
        }
    }
    let mut gi: usize = 0;
    while gi < clusters.len()
        invariant
            0 <= gi <= clusters@.len(),
            clusters@.map_values(|c: Vec<i64>| c@) == cs,
            cs == cluster_split(rest@, CLUSTER_GAP_DAYS as int),
            sorted_strict(rest@),
            days_in_range(rest@, 1, RATA_DIE_MAX as int),
            sorted_strict(available@),
            days_in_range(available@, 1, RATA_DIE_MAX as int),
            forall|x: i64| available@.contains(x) ==> makeup@.contains(x),
            forall|ci: int|
                0 <= ci < cs.len() ==> (#[trigger] cs[ci]).len() > 0 && sorted_strict(cs[ci]),
            forall|ci: int, x: int|
                0 <= ci < cs.len() && 0 <= x < (#[trigger] cs[ci]).len() ==> rest@.contains(
                    #[trigger] cs[ci][x],
                ),
            forall|ci: int, cj: int, x: int, y: int|
                0 <= ci < cj < cs.len() && 0 <= x < cs[ci].len() && 0 <= y < cs[cj].len()
                    ==> #[trigger] cs[ci][x] < #[trigger] cs[cj][y],
            forall|k: int|
                0 <= k < pairs@.len() ==> rest@.contains((#[trigger] pairs@[k]).0)
                    && makeup@.contains(pairs@[k].1) && pair_in_cluster_window(rest@, pairs@[k]),
            sorted_strict(pairs@.map_values(|p: (i64, i64)| p.0)),
            forall|a: int, b: int|
                0 <= a < b < pairs@.len() ==> (#[trigger] pairs@[a]).1 != (#[trigger] pairs@[b]).1,
            forall|k: int| 0 <= k < pairs@.len() ==> !available@.contains((#[trigger] pairs@[k]).1),
            forall|k: int, cj: int, y: int|
                0 <= k < pairs@.len() && gi <= cj < cs.len() && 0 <= y < cs[cj].len()
                    ==> (#[trigger] pairs@[k]).0 < #[trigger] cs[cj][y],
            available@ == cluster_pool(makeup@, cs, gi as int),
            forall|ci: int|
                0 <= ci < gi ==> (#[trigger] pairs@.filter(in_cluster_pred(cs[ci]))).len()
                    == min_int(
                    cs[ci].len() as int,
                    window_candidates(cluster_pool(makeup@, cs, ci), cs[ci]).len() as int,
                ),
            forall|ci: int|
                gi <= ci < cs.len() ==> #[trigger] pairs@.filter(in_cluster_pred(cs[ci])) == Seq::<
                    (i64, i64),
                >::empty(),
        decreases clusters@.len() - gi,
    {
        let ghost prep = pairs@;
        let cluster = &clusters[gi];
        proof {
            assert(cluster@ == cs[gi as int]);
            assert(cluster@.len() > 0);
        }
        let first = cluster[0];
        let last = cluster[cluster.len() - 1];
        proof {
            if cluster@.len() > 1 {
                lemma_sorted_ordered(cluster@, 0, cluster@.len() - 1);
            }
            assert(rest@.contains(cluster@[0]));
            let m = choose|m: int| 0 <= m < rest@.len() && #[trigger] rest@[m] == cluster@[0];
        }
        let window_start = first - MAKEUP_WINDOW_DAYS;
        let window_end = last + MAKEUP_WINDOW_DAYS;
        let (above, below, cands) = split_buckets(&available, window_start, window_end);
        let ghost aboves = above@;
        let ghost belows = below@;
        proof {
            assert forall|x: i64| (#[trigger] aboves.contains(x)) <==> (available@.contains(x) && x
                > window_end) by {
                assert(aboves.contains(x) == above@.contains(x));
            }
            assert forall|x: i64| (#[trigger] belows.contains(x)) <==> (available@.contains(x) && x
                < window_start) by {
                assert(belows.contains(x) == below@.contains(x));
            }
        }
        let mut above_v = above;
        let mut new_available = below;
        new_available.append(&mut above_v);
        proof {
            assert(new_available@ =~= belows + aboves);
        }
        if cands.len() == 0 {
            proof {
                lemma_pool_facts(available@, new_available@, belows, aboves, window_start, window_end);
                lemma_range_from_subset(new_available@, available@, 1, RATA_DIE_MAX as int);
                lemma_pool_step(
                    available@,
                    new_available@,
                    belows,
                    aboves,
                    cands@,
                    cs,
                    gi as int,
                    makeup@,
                    window_start,
                    window_end,
                );
                assert(pairs@.filter(in_cluster_pred(cs[gi as int])).len() == 0);
            }
            available = new_available;
            gi = gi + 1;
            continue;
        }
        proof {
            lemma_range_from_subset(cands@, available@, 1, RATA_DIE_MAX as int);
        }
        let cluster_pairs = match_cluster(cluster, &cands);
        let mut cp = cluster_pairs;
        let ghost cpv = cp@;
        pairs.append(&mut cp);
        proof {
            lemma_pool_facts(available@, new_available@, belows, aboves, window_start, window_end);
            lemma_range_from_subset(new_available@, available@, 1, RATA_DIE_MAX as int);
            assert(pairs@ =~= prep + cpv);
            lemma_match_group_step(
                rest@,
                makeup@,
                cs,
                gi as int,
                prep,
                cpv,
                pairs@,
                available@,
                new_available@,
                cands@,
                window_start,
                window_end,
            );
            lemma_pool_step(
                available@,
                new_available@,
                belows,
                aboves,
                cands@,
                cs,
                gi as int,
                makeup@,
                window_start,
                window_end,
            );
            lemma_group_counts_step(cs, gi as int, prep, cpv, pairs@, makeup@);
        }
        available = new_available;
        gi = gi + 1;
    }
    pairs
}



/// Consuming one cluster's window advances the pool: what remains is the
/// leftover of the cluster, and the removed dates are its window candidates.
proof fn lemma_pool_step(
    available: Seq<i64>,
    new_available: Seq<i64>,
    belows: Seq<i64>,
    aboves: Seq<i64>,
    cands: Seq<i64>,
    cs: Seq<Seq<i64>>,
    gi: int,
    makeup: Seq<i64>,
    window_start: i64,
    window_end: i64,
)
    requires
        sorted_strict(available),
        0 <= gi < cs.len(),
        cs[gi].len() > 0,
        window_start == window_low(cs[gi]),
        window_end == window_high(cs[gi]),
        window_start <= window_end,
        new_available == belows + aboves,
        belows == available.filter(below_pred(window_start as int)),
        aboves == available.filter(above_pred(window_end as int)),
        cands == available.filter(within_pred(window_start as int, window_end as int)),
        available == cluster_pool(makeup, cs, gi),
    ensures
        new_available == cluster_pool(makeup, cs, gi + 1),
        cands == window_candidates(cluster_pool(makeup, cs, gi), cs[gi]),
{
    lemma_outside_split(available, window_start as int, window_end as int);
    assert(new_available == pool_leftover(available, cs[gi]));
}

/// Appending one cluster's pairs keeps the per-cluster pair counts: the
/// freshly matched cluster reaches its bound, the others are untouched.
#[verifier::rlimit(100)]
proof fn lemma_group_counts_step(
    cs: Seq<Seq<i64>>,
    gi: int,
    prep: Seq<(i64, i64)>,
    cpv: Seq<(i64, i64)>,
    newp: Seq<(i64, i64)>,
    makeup: Seq<i64>,
)
    requires
        0 <= gi < cs.len(),
        newp == prep + cpv,
        forall|ci: int|
            0 <= ci < gi ==> (#[trigger] prep.filter(in_cluster_pred(cs[ci]))).len() == min_int(
                cs[ci].len() as int,
                window_candidates(cluster_pool(makeup, cs, ci), cs[ci]).len() as int,
            ),
        forall|ci: int|
            gi <= ci < cs.len() ==> #[trigger] prep.filter(in_cluster_pred(cs[ci])) == Seq::<
                (i64, i64),
            >::empty(),
        forall|k: int| 0 <= k < cpv.len() ==> cs[gi].contains((#[trigger] cpv[k]).0),
        cpv.len() == min_int(
            cs[gi].len() as int,
            window_candidates(cluster_pool(makeup, cs, gi), cs[gi]).len() as int,
        ),
        forall|ci: int, cj: int, x: int, y: int|
            0 <= ci < cj < cs.len() && 0 <= x < cs[ci].len() && 0 <= y < cs[cj].len()
                ==> #[trigger] cs[ci][x] < #[trigger] cs[cj][y],
    ensures
        forall|ci: int|
            0 <= ci < gi + 1 ==> (#[trigger] newp.filter(in_cluster_pred(cs[ci]))).len()
                == min_int(
                cs[ci].len() as int,
                window_candidates(cluster_pool(makeup, cs, ci), cs[ci]).len() as int,
            ),
        forall|ci: int|
            gi + 1 <= ci < cs.len() ==> #[trigger] newp.filter(in_cluster_pred(cs[ci])) == Seq::<
                (i64, i64),
            >::empty(),
{
    assert forall|ci: int|
        0 <= ci < cs.len() && ci != gi implies #[trigger] cpv.filter(in_cluster_pred(cs[ci]))
        == Seq::<(i64, i64)>::empty() by {
        assert forall|k: int|
            0 <= k < cpv.len() implies !(in_cluster_pred(cs[ci])(#[trigger] cpv[k])) by {
            if cs[ci].contains(cpv[k].0) {
                let x = choose|x: int| 0 <= x < cs[ci].len() && #[trigger] cs[ci][x] == cpv[k].0;
                let y = choose|y: int| 0 <= y < cs[gi].len() && #[trigger] cs[gi][y] == cpv[k].0;
                if ci < gi {
                    assert(cs[ci][x] < cs[gi][y]);
                } else {
                    assert(cs[gi][y] < cs[ci][x]);
                }
            }
        }
        lemma_filter_none(cpv, in_cluster_pred(cs[ci]));
    }
    assert forall|k: int|
        0 <= k < cpv.len() implies in_cluster_pred(cs[gi])(#[trigger] cpv[k]) by {}
    lemma_filter_all(cpv, in_cluster_pred(cs[gi]));
    assert forall|ci: int|
        0 <= ci < gi + 1 implies (#[trigger] newp.filter(in_cluster_pred(cs[ci]))).len()
        == min_int(
        cs[ci].len() as int,
        window_candidates(cluster_pool(makeup, cs, ci), cs[ci]).len() as int,
    ) by {
        lemma_filter_distributes(prep, cpv, in_cluster_pred(cs[ci]));
        if ci == gi {
            assert(prep.filter(in_cluster_pred(cs[ci])) == Seq::<(i64, i64)>::empty());
            assert(newp.filter(in_cluster_pred(cs[ci])) =~= cpv);
        } else {
            assert(cpv.filter(in_cluster_pred(cs[ci])) == Seq::<(i64, i64)>::empty());
            assert(newp.filter(in_cluster_pred(cs[ci])) =~= prep.filter(in_cluster_pred(cs[ci])));
        }
    }
    assert forall|ci: int|
        gi + 1 <= ci < cs.len() implies #[trigger] newp.filter(in_cluster_pred(cs[ci])) == Seq::<
        (i64, i64),
    >::empty() by {
        lemma_filter_distributes(prep, cpv, in_cluster_pred(cs[ci]));
        assert(newp.filter(in_cluster_pred(cs[ci])) =~= Seq::<(i64, i64)>::empty());
    }
}

/// One step of the per-group matching: appending one cluster's pairs keeps
/// every invariant of the matching loop.
#[verifier::rlimit(100)]
proof fn lemma_match_group_step(
    rest: Seq<i64>,
    makeup: Seq<i64>,
    cs: Seq<Seq<i64>>,
    gi: int,
    prep: Seq<(i64, i64)>,
    cpv: Seq<(i64, i64)>,
    newp: Seq<(i64, i64)>,
    available: Seq<i64>,
    new_available: Seq<i64>,
    cands: Seq<i64>,
    window_start: i64,
    window_end: i64,
)
    requires
        cs == cluster_split(rest, CLUSTER_GAP_DAYS as int),
        0 <= gi < cs.len(),
        cs[gi].len() > 0,
        newp == prep + cpv,
        window_start == cs[gi][0] - MAKEUP_WINDOW_DAYS,
        window_end == cs[gi].last() + MAKEUP_WINDOW_DAYS,
        forall|x: i64| #[trigger] cands.contains(x) <==> (available.contains(x) && window_start <= x
            <= window_end),
        forall|x: i64| #[trigger] new_available.contains(x) <==> (available.contains(x) && !(
        window_start <= x <= window_end)),
        forall|x: i64| #[trigger] available.contains(x) ==> makeup.contains(x),
        forall|ci: int, x: int|
            0 <= ci < cs.len() && 0 <= x < (#[trigger] cs[ci]).len() ==> rest.contains(
                #[trigger] cs[ci][x],
            ),
        forall|ci: int, cj: int, x: int, y: int|
            0 <= ci < cj < cs.len() && 0 <= x < cs[ci].len() && 0 <= y < cs[cj].len()
                ==> #[trigger] cs[ci][x] < #[trigger] cs[cj][y],
        forall|k: int|
            0 <= k < prep.len() ==> rest.contains((#[trigger] prep[k]).0) && makeup.contains(
                prep[k].1,
            ) && pair_in_cluster_window(rest, prep[k]),
        sorted_strict(prep.map_values(|p: (i64, i64)| p.0)),
        forall|a: int, b: int|
            0 <= a < b < prep.len() ==> (#[trigger] prep[a]).1 != (#[trigger] prep[b]).1,
        forall|k: int| 0 <= k < prep.len() ==> !available.contains((#[trigger] prep[k]).1),
        forall|k: int, cj: int, y: int|
            0 <= k < prep.len() && gi <= cj < cs.len() && 0 <= y < cs[cj].len()
                ==> (#[trigger] prep[k]).0 < #[trigger] cs[cj][y],
        forall|k: int|
            0 <= k < cpv.len() ==> cs[gi].contains((#[trigger] cpv[k]).0) && cands.contains(
                cpv[k].1,
            ),
        sorted_strict(cpv.map_values(|p: (i64, i64)| p.0)),
        forall|a: int, b: int|
            0 <= a < b < cpv.len() ==> (#[trigger] cpv[a]).1 != (#[trigger] cpv[b]).1,
    ensures
        forall|k: int|
            0 <= k < newp.len() ==> rest.contains((#[trigger] newp[k]).0) && makeup.contains(
                newp[k].1,
            ) && pair_in_cluster_window(rest, newp[k]),
        sorted_strict(newp.map_values(|p: (i64, i64)| p.0)),
        forall|a: int, b: int|
            0 <= a < b < newp.len() ==> (#[trigger] newp[a]).1 != (#[trigger] newp[b]).1,
        forall|k: int| 0 <= k < newp.len() ==> !new_available.contains((#[trigger] newp[k]).1),
        forall|k: int, cj: int, y: int|
            0 <= k < newp.len() && gi + 1 <= cj < cs.len() && 0 <= y < cs[cj].len()
                ==> (#[trigger] newp[k]).0 < #[trigger] cs[cj][y],
{
    assert forall|k: int|
        0 <= k < newp.len() implies rest.contains((#[trigger] newp[k]).0) && makeup.contains(
        newp[k].1,
    ) && pair_in_cluster_window(rest, newp[k]) by {
        if k < prep.len() {
            assert(newp[k] == prep[k]);
        } else {
            let p = cpv[k - prep.len()];
            assert(newp[k] == p);
            assert(cs[gi].contains(p.0));
            let m = choose|m: int| 0 <= m < cs[gi].len() && #[trigger] cs[gi][m] == p.0;
            assert(rest.contains(p.0));
            assert(cands.contains(p.1));
            assert(available.contains(p.1));
            assert(cs[gi][0] - MAKEUP_WINDOW_DAYS <= p.1 <= cs[gi].last() + MAKEUP_WINDOW_DAYS);
        }
    }
    assert forall|a: int, b: int|
        0 <= a < b < newp.len() implies (#[trigger] newp[a]).1 != (#[trigger] newp[b]).1 by {
        if b < prep.len() {
            assert(newp[a] == prep[a] && newp[b] == prep[b]);
        } else if a >= prep.len() {
            assert(newp[a] == cpv[a - prep.len()] && newp[b] == cpv[b - prep.len()]);
        } else {
            assert(newp[a] == prep[a] && newp[b] == cpv[b - prep.len()]);
            assert(cands.contains(cpv[b - prep.len()].1));
            assert(available.contains(cpv[b - prep.len()].1));
            assert(!available.contains(prep[a].1));
        }
    }
    let newkeys = newp.map_values(|p: (i64, i64)| p.0);
    let prekeys = prep.map_values(|p: (i64, i64)| p.0);
    let cpkeys = cpv.map_values(|p: (i64, i64)| p.0);
    assert forall|k: int| 0 < k < newkeys.len() implies newkeys[k - 1] < #[trigger] newkeys[k] by {
        if k < prep.len() {
            assert(newkeys[k] == prekeys[k] && newkeys[k - 1] == prekeys[k - 1]);
        } else if k > prep.len() {
            assert(newkeys[k] == cpkeys[k - prep.len()] && newkeys[k - 1] == cpkeys[k - 1
                - prep.len()]);
        } else {
            assert(newkeys[k] == cpv[0].0 && newkeys[k - 1] == prep[k - 1].0);
            assert(cs[gi].contains(cpv[0].0));
            let y = choose|y: int| 0 <= y < cs[gi].len() && #[trigger] cs[gi][y] == cpv[0].0;
            assert(prep[k - 1].0 < cs[gi][y]);
        }
    }
    assert forall|k: int|
        0 <= k < newp.len() implies !new_available.contains((#[trigger] newp[k]).1) by {
        if k < prep.len() {
            assert(newp[k] == prep[k]);
            if new_available.contains(prep[k].1) {
                assert(available.contains(prep[k].1));
            }
        } else {
            let p = cpv[k - prep.len()];
            assert(newp[k] == p);
            assert(cands.contains(p.1));
            assert(window_start <= p.1 <= window_end);
        }
    }
    assert forall|k: int, cj: int, y: int|
        0 <= k < newp.len() && gi + 1 <= cj < cs.len() && 0 <= y < cs[cj].len() implies (
    #[trigger] newp[k]).0 < #[trigger] cs[cj][y] by {
        if k < prep.len() {
            assert(newp[k] == prep[k]);
        } else {
            assert(newp[k] == cpv[k - prep.len()]);
            assert(cs[gi].contains(newp[k].0));
            let x = choose|x: int| 0 <= x < cs[gi].len() && #[trigger] cs[gi][x] == newp[k].0;
            assert(cs[gi][x] < cs[cj][y]);
        }
    }
}


/// A date written as YYYY-MM-DD.
pub open spec fn date_text_of(day: int) -> Seq<char> {
    let t = crate::date::civil_of_day(day);
    crate::strutil::fixed_digits(t.0, 4) + seq!['-'] + crate::strutil::fixed_digits(t.1, 2)
        + seq!['-'] + crate::strutil::fixed_digits(t.2, 2)
}

/// A date written as YYYY-MM-DD.
fn format_day(day: i64) -> (r: String)
    requires
        1 <= day <= RATA_DIE_MAX,
    ensures
        r@ == date_text_of(day as int),
        r@.len() == 10,
{
    let (y, m, d) = days_to_ymd(day);
    proof {
        assert(pow10(0) == 1);
        assert(pow10(1) == 10);
        assert(pow10(2) == 100);
        assert(pow10(3) == 1000);
        assert(pow10(4) == 10000);
        crate::strutil::lemma_fixed_digits_len(y as int, 4);
        crate::strutil::lemma_fixed_digits_len(m as int, 2);
        crate::strutil::lemma_fixed_digits_len(d as int, 2);
    }
    let mut out = String::new();
    push_fixed_digits(&mut out, y, 4);
    crate::strutil::push_char(&mut out, '-');
    push_fixed_digits(&mut out, m, 2);
    crate::strutil::push_char(&mut out, '-');
    push_fixed_digits(&mut out, d, 2);
    proof {
        assert(out@ =~= date_text_of(day as int));
    }
    out
}

/// The local calendar day of a course occurrence: the semester anchor plus
/// `week - 1` weeks and `weekday - 1` days, each floored at zero.
pub open spec fn occurrence_day(sem: Semester, week: u32, weekday: u32) -> int {
    let w: int = if week >= 1 {
        week - 1
    } else {
        0
    };
    let d: int = if weekday >= 1 {
        weekday - 1
    } else {
        0
    };
    Instant {
        secs: (sem.start_date.secs + w * 604800 + d * 86400) as i64,
        offset_secs: sem.start_date.offset_secs,
    }.local_day()
}

/// The local calendar date of a course occurrence.
pub fn occurrence_date_for(semester: &Semester, week: u32, weekday: u32) -> (r: Date)
    requires
        semester.start_date.time_ok(),
    ensures
        r.day == occurrence_day(*semester, week, weekday),
{
    let w: i64 = if week >= 1 {
        (week - 1) as i64
    } else {
        0
    };
    let d: i64 = if weekday >= 1 {
        (weekday - 1) as i64
    } else {
        0
    };
    let t = Instant {
        secs: semester.start_date.secs + w * 604800 + d * 86400,
        offset_secs: semester.start_date.offset_secs,
    };
    t.date_naive()
}

/// Whether a course carries a nonempty week list and a weekday, so that the
/// reconciler treats it as a recurring record.
pub open spec fn recurring_case(c: CourseView) -> bool {
    c.weeks is Some && c.weekday is Some && c.weeks.unwrap().len() > 0
}

/// Field-for-field relation of a synthesized make-up duplicate to its
/// recurring original for week `wk`: the instants are those of that week's
/// occurrence shifted by the rest-to-make-up day delta, the recurrence
/// structure is cleared, and a remark is attached.
pub open spec fn makeup_clone_rel(
    cal: HolidayCalendar,
    sem: Semester,
    c: CourseView,
    wk: u32,
    out: CourseView,
) -> bool {
    let day = occurrence_day(sem, wk, c.weekday.unwrap());
    let mday = cal.map_view()[day];
    let delta = mday - day;
    let first = c.weeks.unwrap()[0];
    &&& out.name == c.name
    &&& out.code == c.code
    &&& out.teacher == c.teacher
    &&& out.location == c.location
    &&& out.description == c.description
    &&& out.course_type == c.course_type
    &&& out.exam_type == c.exam_type
    &&& out.seat == c.seat
    &&& out.status == c.status
    &&& out.week == c.week
    &&& out.start_time.secs == c.start_time.secs + (wk - first) * 604800 + delta * (
    SECS_PER_DAY as int)
    &&& out.end_time.secs == c.end_time.secs + (wk - first) * 604800 + delta * (SECS_PER_DAY as int)
    &&& out.start_time.offset_secs == c.start_time.offset_secs
    &&& out.end_time.offset_secs == c.end_time.offset_secs
    &&& out.weeks is None
    &&& out.weekday is None
    &&& out.current_week is None
    &&& out.off_weeks == c.off_weeks
    &&& out.note == Some(makeup_note_text(c.note, day))
    &&& out.raw_week == Some(makeup_raw_week_text(day, mday))
}

/// Field-for-field relation of a shifted single-occurrence record to its
/// original: both instants move by the rest-to-make-up day delta of the
/// original start date, and a remark is attached.
pub open spec fn single_shift_rel(cal: HolidayCalendar, c: CourseView, out: CourseView) -> bool {
    let day = c.start_time.local_day();
    let mday = cal.map_view()[day];
    let delta = mday - day;
    &&& out.name == c.name
    &&& out.code == c.code
    &&& out.teacher == c.teacher
    &&& out.location == c.location
    &&& out.description == c.description
    &&& out.course_type == c.course_type
    &&& out.exam_type == c.exam_type
    &&& out.seat == c.seat
    &&& out.status == c.status
    &&& out.week == c.week
    &&& out.start_time.secs == c.start_time.secs + delta * (SECS_PER_DAY as int)
    &&& out.end_time.secs == c.end_time.secs + delta * (SECS_PER_DAY as int)
    &&& out.start_time.offset_secs == c.start_time.offset_secs
    &&& out.end_time.offset_secs == c.end_time.offset_secs
    &&& out.weeks == c.weeks
    &&& out.weekday == c.weekday
    &&& out.current_week == c.current_week
    &&& out.off_weeks == c.off_weeks
    &&& out.note == Some(makeup_note_text(c.note, day))
    &&& out.raw_week == Some(makeup_raw_week_text(day, mday))
}

/// The remark naming the original date of a moved occurrence, appended to an
/// existing nonempty remark when one is there.
pub open spec fn makeup_note_text(old_note: Option<Seq<char>>, rest_day: int) -> Seq<char> {
    let base: Seq<char> = match old_note {
        Some(d) => if d.len() > 0 {
            d + "\n"@
        } else {
            Seq::empty()
        },
        None => Seq::empty(),
    };
    base + "\u{8c03}\u{4f11}\u{8865}\u{8bfe}\u{ff1a}\u{539f}\u{65e5}\u{671f} "@ + date_text_of(
        rest_day,
    )
}

/// The raw-week remark naming the move from the rest date to the make-up date.
pub open spec fn makeup_raw_week_text(rest_day: int, makeup_day: int) -> Seq<char> {
    "\u{8c03}\u{4f11}\u{8865}\u{8bfe}\u{ff08}"@ + date_text_of(rest_day) + " \u{2192} "@
        + date_text_of(makeup_day) + "\u{ff09}"@
}

/// The remark naming the original date of a moved occurrence, appended to an
/// existing remark when one is there.
fn makeup_note(old_note: &Option<String>, rest_day: i64) -> (r: String)
    requires
        1 <= rest_day <= RATA_DIE_MAX,
    ensures
        r@ == makeup_note_text(crate::types::opt_str_view(old_note), rest_day as int),
{
    let date_text = format_day(rest_day);
    let mut note = String::new();
    match old_note {
        Some(desc) => {
            if desc.as_str().unicode_len() > 0 {
                note.append(desc.as_str());
                note.append("\n");
            }
        },
        None => {},
    }
    note.append("\u{8c03}\u{4f11}\u{8865}\u{8bfe}\u{ff1a}\u{539f}\u{65e5}\u{671f} ");
    note.append(date_text.as_str());
    proof {
        assert(note@ =~= makeup_note_text(crate::types::opt_str_view(old_note), rest_day as int));
    }
    note
}

/// The raw-week remark naming the move from the rest date to the make-up date.
fn makeup_raw_week(rest_day: i64, makeup_day: i64) -> (r: String)
    requires
        1 <= rest_day <= RATA_DIE_MAX,
        1 <= makeup_day <= RATA_DIE_MAX,
    ensures
        r@ == makeup_raw_week_text(rest_day as int, makeup_day as int),
{
    let rest_text = format_day(rest_day);
    let makeup_text = format_day(makeup_day);
    let mut raw = String::new();
    raw.append("\u{8c03}\u{4f11}\u{8865}\u{8bfe}\u{ff08}");
    raw.append(rest_text.as_str());
    raw.append(" \u{2192} ");
    raw.append(makeup_text.as_str());
    raw.append("\u{ff09}");
    proof {
        assert(raw@ =~= makeup_raw_week_text(rest_day as int, makeup_day as int));
    }
    raw
}



/// A make-up duplicate lands on the matched make-up date: when a recurring
/// course's start instant is its first week's occurrence (it agrees with the
/// semester anchor in offset and local day), the duplicate's local date is
/// exactly the make-up date matched to the collided occurrence.
pub proof fn lemma_makeup_clone_lands_on_makeup_date(
    cal: HolidayCalendar,
    sem: Semester,
    c: CourseView,
    wk: u32,
    out: CourseView,
)
    requires
        cal.wf(),
        recurring_case(c),
        makeup_clone_rel(cal, sem, c, wk, out),
        cal.map_view().dom().contains(occurrence_day(sem, wk, c.weekday.unwrap())),
        1 <= c.weeks.unwrap()[0] <= wk,
        1 <= c.weekday.unwrap(),
        sem.start_date.time_ok(),
        c.start_time.time_ok(),
        c.start_time.offset_secs == sem.start_date.offset_secs,
        c.start_time.local_day() == occurrence_day(sem, c.weeks.unwrap()[0], c.weekday.unwrap()),
    ensures
        out.start_time.local_day() == cal.map_view()[occurrence_day(sem, wk, c.weekday.unwrap())],
{
    broadcast use vstd::arithmetic::div_mod::lemma_hoist_over_denominator;

    let first = c.weeks.unwrap()[0];
    let wd = c.weekday.unwrap();
    let day = occurrence_day(sem, wk, wd);
    let mday = cal.map_view()[day];
    let delta = mday - day;
    cal.lemma_map_ranges();
    let base = sem.start_date.secs + sem.start_date.offset_secs + (wd - 1) * 86400;
    assert(occurrence_day(sem, first, wd) == (base + (first - 1) * 604800) / 86400
        + RATA_DIE_EPOCH as int);
    assert(day == (base + (wk - 1) * 604800) / 86400 + RATA_DIE_EPOCH as int);
    assert(base + (wk - 1) * 604800 == (base + (first - 1) * 604800) + ((wk - first) * 7) * 86400);
    assert((base + (first - 1) * 604800) / 86400 + (wk - first) * 7 == (base + (wk - 1) * 604800)
        / 86400);
    assert(day == occurrence_day(sem, first, wd) + (wk - first) * 7);
    let cs = c.start_time.secs + c.start_time.offset_secs;
    assert(out.start_time.secs + out.start_time.offset_secs == cs + ((wk - first) * 7 + delta)
        * 86400);
    assert(cs / 86400 + ((wk - first) * 7 + delta) == (cs + ((wk - first) * 7 + delta) * 86400)
        / 86400);
    assert(out.start_time.local_day() == c.start_time.local_day() + (wk - first) * 7 + delta);
}

/// The occurrence-week lists the reconciler derives from a course.
pub open spec fn course_views(s: Seq<Course>) -> Seq<CourseView> {
    s.map_values(|c: Course| c@)
}

/// The weeks of a recurring course whose occurrence falls on a rest day.
pub open spec fn collision_weeks(cal: HolidayCalendar, sem: Semester, c: CourseView) -> Seq<u32> {
    c.weeks.unwrap().filter(
        |wk: u32| cal.rest_set().contains(occurrence_day(sem, wk, c.weekday.unwrap())),
    )
}

/// The weeks of a recurring course whose occurrence falls on a rest day with
/// a matched make-up date.
pub open spec fn matched_weeks(cal: HolidayCalendar, sem: Semester, c: CourseView) -> Seq<u32> {
    c.weeks.unwrap().filter(
        |wk: u32| cal.map_view().dom().contains(occurrence_day(sem, wk, c.weekday.unwrap())),
    )
}

/// How many duplicates the reconciler appends for the given courses.
pub open spec fn appended_count(cal: HolidayCalendar, sem: Semester, cs: Seq<CourseView>) -> int
    decreases cs.len(),
{
    if cs.len() == 0 {
        0
    } else {
        let head: int = if recurring_case(cs[0]) {
            matched_weeks(cal, sem, cs[0]).len() as int
        } else if cal.map_view().dom().contains(cs[0].start_time.local_day()) {
            1
        } else {
            0
        };
        head + appended_count(cal, sem, cs.skip(1))
    }
}

/// What the reconciler leaves in place of a course: a recurring course keeps
/// its fields with its off-weeks set to the collision weeks (or cleared when
/// none collide); any other course is retained unmodified.
pub open spec fn reconciled_view(cal: HolidayCalendar, sem: Semester, c: CourseView) -> CourseView {
    if recurring_case(c) {
        let cw = collision_weeks(cal, sem, c);
        CourseView {
            off_weeks: if cw.len() > 0 {
                Some(cw)
            } else {
                None
            },
            ..c
        }
    } else {
        c
    }
}

/// Whether `out` is a duplicate the reconciler may append for one of the
/// given courses: a make-up clone of a matched week of a recurring course, or
/// the shifted copy of a single-occurrence record whose date is matched.
pub open spec fn appended_ok(
    cal: HolidayCalendar,
    sem: Semester,
    cs: Seq<CourseView>,
    out: CourseView,
) -> bool {
    exists|i: int|
        0 <= i < cs.len() && {
            let c = #[trigger] cs[i];
            if recurring_case(c) {
                exists|wi: int|
                    0 <= wi < c.weeks.unwrap().len() && cal.map_view().dom().contains(
                        occurrence_day(sem, #[trigger] c.weeks.unwrap()[wi], c.weekday.unwrap()),
                    ) && makeup_clone_rel(cal, sem, c, c.weeks.unwrap()[wi], out)
            } else {
                cal.map_view().dom().contains(c.start_time.local_day()) && single_shift_rel(
                    cal,
                    c,
                    out,
                )
            }
        }
}

/// Copies a course, shifting its instants onto the matched make-up date: the
/// instants move by the day difference, the week/weekday structure is
/// cleared, and a remark names the original date.
pub fn create_makeup_course(
    template: &Course,
    occurrence_start: Instant,
    occurrence_end: Instant,
    rest_date: Date,
    makeup_date: Date,
) -> (c: Course)
    requires
        1 <= rest_date.day <= RATA_DIE_MAX,
        1 <= makeup_date.day <= RATA_DIE_MAX,
        -0x40_0000_0000_0000 <= occurrence_start.secs <= 0x40_0000_0000_0000,
        -0x40_0000_0000_0000 <= occurrence_end.secs <= 0x40_0000_0000_0000,
    ensures
        ({
            let t = template@;
            let out = c@;
            let delta = makeup_date.day - rest_date.day;
            &&& out.name == t.name
            &&& out.code == t.code
            &&& out.teacher == t.teacher
            &&& out.location == t.location
            &&& out.description == t.description
            &&& out.course_type == t.course_type
            &&& out.exam_type == t.exam_type
            &&& out.seat == t.seat
            &&& out.status == t.status
            &&& out.week == t.week
            &&& out.off_weeks == t.off_weeks
            &&& out.start_time.secs == occurrence_start.secs + delta * (SECS_PER_DAY as int)
            &&& out.end_time.secs == occurrence_end.secs + delta * (SECS_PER_DAY as int)
            &&& out.start_time.offset_secs == occurrence_start.offset_secs
            &&& out.end_time.offset_secs == occurrence_end.offset_secs
            &&& out.weeks is None
            &&& out.weekday is None
            &&& out.current_week is None
            &&& out.note == Some(makeup_note_text(t.note, rest_date.day as int))
            &&& out.raw_week == Some(
                makeup_raw_week_text(rest_date.day as int, makeup_date.day as int),
            )
        }),
{
    let diff_days = makeup_date.day - rest_date.day;
    let mut course = template.clone();
    course.start_time = occurrence_start.plus_days(diff_days);
    course.end_time = occurrence_end.plus_days(diff_days);
    course.weeks = None;
    course.weekday = None;
    course.current_week = None;
    course.note = Some(makeup_note(&template.note, rest_date.day));
    course.raw_week = Some(makeup_raw_week(rest_date.day, makeup_date.day));
    course
}

/// A holiday feed entry: one parsed calendar event, as its named text
/// properties.
#[derive(Debug)]
pub struct HolidayIcalEvent {
    pub properties: Vec<(String, Option<String>)>,
}

impl View for HolidayIcalEvent {
    type V = Seq<(Seq<char>, Option<Seq<char>>)>;

    open spec fn view(&self) -> Seq<(Seq<char>, Option<Seq<char>>)> {
        self.properties@.map_values(
            |p: (String, Option<String>)| (p.0@, crate::types::opt_str_view(&p.1)),
        )
    }
}

/// The value slot of the first property with the given name, compared
/// without regard to ASCII letter case; the outer option is the lookup.
pub open spec fn prop_lookup(
    props: Seq<(Seq<char>, Option<Seq<char>>)>,
    name: Seq<char>,
) -> Option<Option<Seq<char>>>
    decreases props.len(),
{
    if props.len() == 0 {
        None
    } else if crate::strutil::eq_ignore_ascii_case_seq(props[0].0, name) {
        Some(props[0].1)
    } else {
        prop_lookup(props.skip(1), name)
    }
}

/// The text of the first property with the given name, when the property is
/// there and carries a value.
pub open spec fn lookup_value(
    props: Seq<(Seq<char>, Option<Seq<char>>)>,
    name: Seq<char>,
) -> Option<Seq<char>> {
    match prop_lookup(props, name) {
        Some(v) => v,
        None => None,
    }
}

/// The classification of a holiday feed entry.
#[derive(Debug, Clone, Copy, PartialEq, Eq, Structural)]
pub enum HolidayEventKind {
    Rest,
    Makeup,
}

/// How a feed entry is classified. An explicit special-day tag decides when
/// it is present; otherwise the summary text, with blanks removed, decides by
/// its vocabulary: resting words make a rest entry, working words a make-up
/// entry, anything else is discarded.
pub open spec fn classify_spec(tag: Option<Seq<char>>, summary: Option<Seq<char>>) -> Option<
    HolidayEventKind,
> {
    if tag is Some {
        if tag.unwrap() == "WORK-HOLIDAY"@ {
            Some(HolidayEventKind::Rest)
        } else if tag.unwrap() == "ALTERNATE-WORKDAY"@ {
            Some(HolidayEventKind::Makeup)
        } else {
            None
        }
    } else if summary is Some {
        let text = crate::strutil::without_blanks(summary.unwrap());
        if contains_seq(text, "\u{4f11}"@) || contains_seq(text, "\u{653e}\u{5047}"@) {
            Some(HolidayEventKind::Rest)
        } else if contains_seq(text, "\u{73ed}"@) || contains_seq(text, "\u{8c03}\u{4f11}"@)
            || contains_seq(text, "\u{4e0a}\u{73ed}"@) {
            Some(HolidayEventKind::Makeup)
        } else {
            None
        }
    } else {
        None
    }
}

/// Classifies a feed entry from its special-day tag and its summary.
pub fn classify_event(tag: Option<&String>, summary: Option<&String>) -> (r: Option<
    HolidayEventKind,
>)
    ensures
        r == classify_spec(
            match tag {
                Some(t) => Some(t@),
                None => None,
            },
            match summary {
                Some(s) => Some(s@),
                None => None,
            },
        ),
{
    match tag {
        Some(t) => {
            if crate::strutil::str_eq(t.as_str(), "WORK-HOLIDAY") {
                Some(HolidayEventKind::Rest)
            } else if crate::strutil::str_eq(t.as_str(), "ALTERNATE-WORKDAY") {
                Some(HolidayEventKind::Makeup)
            } else {
                None
            }
        },
        None => {
            match summary {
                Some(s) => {
                    let text = crate::strutil::strip_blanks(s.as_str());
                    if contains_sub(text.as_str(), "\u{4f11}") || contains_sub(
                        text.as_str(),
                        "\u{653e}\u{5047}",
                    ) {
                        Some(HolidayEventKind::Rest)
                    } else if contains_sub(text.as_str(), "\u{73ed}") || contains_sub(
                        text.as_str(),
                        "\u{8c03}\u{4f11}",
                    ) || contains_sub(text.as_str(), "\u{4e0a}\u{73ed}") {
                        Some(HolidayEventKind::Makeup)
                    } else {
                        None
                    }
                },
                None => None,
            }
        },
    }
}

/// The value of the first property of the event with the given name,
/// compared without regard to ASCII letter case.
pub fn event_property<'a>(event: &'a HolidayIcalEvent, name: &str) -> (r: Option<&'a String>)
    ensures
        match r {
            Some(v) => lookup_value(event@, name@) == Some(v@),
            None => lookup_value(event@, name@) is None,
        },
{
    proof {
        assert(event@.skip(0) =~= event@);
    }
    let mut i: usize = 0;
    while i < event.properties.len()
        invariant
            0 <= i <= event.properties@.len(),
            event@.len() == event.properties@.len(),
            prop_lookup(event@, name@) == prop_lookup(event@.skip(i as int), name@),
        decreases event.properties@.len() - i,
    {
        proof {
            assert(event@.skip(i as int)[0] == event@[i as int]);
            assert(event@.skip(i as int).skip(1) =~= event@.skip(i + 1));
        }
        if crate::strutil::str_eq_ignore_ascii_case(event.properties[i].0.as_str(), name) {
            proof {
                assert(crate::strutil::eq_ignore_ascii_case_seq(event@[i as int].0, name@));
            }
            return match &event.properties[i].1 {
                Some(v) => Some(v),
                None => None,
            };
        }
        i = i + 1;
    }
    proof {
        assert(event@.skip(event@.len() as int) =~= Seq::<(Seq<char>, Option<Seq<char>>)>::empty());
    }
    None
}

/// The rata-die day number that `DateTime::parse_from_rfc3339` reads from a
/// full timestamp with offset, when it accepts the text; a function of the
/// text alone.
pub uninterp spec fn rfc3339_day_of(s: Seq<char>) -> Option<int>;

/// Relies on chrono's DateTime::parse_from_rfc3339 and Datelike::num_days_from_ce:
/// the parsed timestamp's local calendar date, as the day count from the
/// calendar's first day, which is this crate's rata-die day number.
#[verifier::external_body]
fn parse_rfc3339_day(value: &str) -> (r: Option<i64>)
    ensures
        match r {
            Some(d) => rfc3339_day_of(value@) == Some(d as int),
            None => rfc3339_day_of(value@) is None,
        },
{
    match chrono::DateTime::parse_from_rfc3339(value) {
        Ok(dt) => Some(chrono::Datelike::num_days_from_ce(&dt.date_naive()) as i64),
        Err(_) => None,
    }
}

/// Whether the text is a bare date written as YYYYMMDD naming a real date.
pub open spec fn basic_date_ok(s: Seq<char>) -> bool {
    &&& s.len() == 8
    &&& crate::strutil::all_digits(s)
    &&& valid_ymd(
        crate::strutil::digits_value(s.subrange(0, 4)),
        crate::strutil::digits_value(s.subrange(4, 6)),
        crate::strutil::digits_value(s.subrange(6, 8)),
    )
}

pub open spec fn basic_date_day(s: Seq<char>) -> int {
    crate::date::rata_die(
        crate::strutil::digits_value(s.subrange(0, 4)),
        crate::strutil::digits_value(s.subrange(4, 6)),
        crate::strutil::digits_value(s.subrange(6, 8)),
    )
}

/// Whether the text is a date-time written as YYYYMMDDTHHMMSS, with an
/// optional trailing Z, naming a real date and time of day.
pub open spec fn basic_datetime_ok(s: Seq<char>) -> bool {
    &&& (s.len() == 15 || (s.len() == 16 && s[15] == 'Z'))
    &&& s[8] == 'T'
    &&& basic_date_ok(s.subrange(0, 8))
    &&& crate::strutil::all_digits(s.subrange(9, 15))
    &&& 0 <= crate::strutil::digits_value(s.subrange(9, 11)) <= 23
    &&& 0 <= crate::strutil::digits_value(s.subrange(11, 13)) <= 59
    &&& 0 <= crate::strutil::digits_value(s.subrange(13, 15)) <= 59
}

/// What `parse_date` yields: the date of a bare YYYYMMDD text, else of a
/// YYYYMMDDTHHMMSS[Z] text, else what the full-timestamp parser reads.
pub open spec fn parse_date_spec(s: Seq<char>) -> Option<int> {
    if basic_date_ok(s) {
        Some(basic_date_day(s))
    } else if basic_datetime_ok(s) {
        Some(basic_date_day(s.subrange(0, 8)))
    } else {
        rfc3339_day_of(s)
    }
}

/// Reads a calendar date in one of the accepted encodings: YYYYMMDD,
/// YYYYMMDDTHHMMSS with an optional trailing Z, or a full timestamp with
/// offset.
pub fn parse_date(value: &str) -> (r: Option<Date>)
    ensures
        match r {
            Some(d) => parse_date_spec(value@) == Some(d.day as int),
            None => parse_date_spec(value@) is None,
        },
{
    let len = value.unicode_len();
    if len == 8 {
        match parse_basic_date(value, 0) {
            Some(d) => {
                proof {
                    assert(value@.subrange(0, 8) =~= value@);
                }
                return Some(d);
            },
            None => {
                proof {
                    assert(value@.subrange(0, 8) =~= value@);
                }
            },
        }
    }
    if (len == 15 || (len == 16 && value.get_char(15) == 'Z')) && value.get_char(8) == 'T' {
        let date = parse_basic_date(value, 0);
        let h = crate::strutil::parse_digits(value, 9, 2);
        let mi = crate::strutil::parse_digits(value, 11, 2);
        let sec = crate::strutil::parse_digits(value, 13, 2);
        match (date, h, mi, sec) {
            (Some(d), Some(h), Some(mi), Some(sec)) => {
                if h <= 23 && mi <= 59 && sec <= 59 {
                    proof {
                        assert(value@.subrange(9, 15) =~= value@.subrange(9, 11) + value@.subrange(
                            11,
                            13,
                        ) + value@.subrange(13, 15));
                        assert forall|k: int|
                            0 <= k < value@.subrange(9, 15).len() implies crate::strutil::is_ascii_digit(
                            #[trigger] value@.subrange(9, 15)[k],
                        ) by {
                            if k < 2 {
                                assert(value@.subrange(9, 11)[k] == value@.subrange(9, 15)[k]);
                            } else if k < 4 {
                                assert(value@.subrange(11, 13)[k - 2] == value@.subrange(9, 15)[k]);
                            } else {
                                assert(value@.subrange(13, 15)[k - 4] == value@.subrange(9, 15)[k]);
                            }
                        }
                        assert(!basic_date_ok(value@));
                    }
                    return Some(d);
                }
            },
            _ => {},
        }
        proof {
            if basic_datetime_ok(value@) {
                assert(crate::strutil::all_digits(value@.subrange(9, 15)));
                assert forall|k: int|
                    0 <= k < 2 implies crate::strutil::is_ascii_digit(
                    #[trigger] value@.subrange(9, 11)[k],
                ) by {
                    assert(value@.subrange(9, 15)[k] == value@.subrange(9, 11)[k]);
                }
                assert forall|k: int|
                    0 <= k < 2 implies crate::strutil::is_ascii_digit(
                    #[trigger] value@.subrange(11, 13)[k],
                ) by {
                    assert(value@.subrange(9, 15)[k + 2] == value@.subrange(11, 13)[k]);
                }
                assert forall|k: int|
                    0 <= k < 2 implies crate::strutil::is_ascii_digit(
                    #[trigger] value@.subrange(13, 15)[k],
                ) by {
                    assert(value@.subrange(9, 15)[k + 4] == value@.subrange(13, 15)[k]);
                }
            }
        }
    }
    proof {
        if value@.len() == 8 {
            assert(value@.subrange(0, 8) =~= value@);
        }
    }
    match parse_rfc3339_day(value) {
        Some(day) => Some(Date { day }),
        None => None,
    }
}

/// Reads the eight characters at `start` as a YYYYMMDD date.
fn parse_basic_date(value: &str, start: usize) -> (r: Option<Date>)
    requires
        start + 8 <= value@.len(),
        value@.len() <= usize::MAX,
    ensures
        match r {
            Some(d) => basic_date_ok(value@.subrange(start as int, start + 8)) && d.day
                == basic_date_day(value@.subrange(start as int, start + 8)) && 1 <= d.day
                <= RATA_DIE_MAX,
            None => !basic_date_ok(value@.subrange(start as int, start + 8)),
        },
{
    let y = crate::strutil::parse_digits(value, start, 4);
    let m = crate::strutil::parse_digits(value, start + 4, 2);
    let d = crate::strutil::parse_digits(value, start + 6, 2);
    proof {
        let sub = value@.subrange(start as int, start + 8);
        assert(sub.subrange(0, 4) =~= value@.subrange(start as int, start + 4));
        assert(sub.subrange(4, 6) =~= value@.subrange(start + 4, start + 6));
        assert(sub.subrange(6, 8) =~= value@.subrange(start + 6, start + 8));
        assert(sub =~= sub.subrange(0, 4) + sub.subrange(4, 6) + sub.subrange(6, 8));
        assert forall|k: int|
            crate::strutil::all_digits(sub.subrange(0, 4)) && crate::strutil::all_digits(
                sub.subrange(4, 6),
            ) && crate::strutil::all_digits(sub.subrange(6, 8)) && 0 <= k
                < sub.len() implies crate::strutil::is_ascii_digit(#[trigger] sub[k]) by {
            if k < 4 {
                assert(sub.subrange(0, 4)[k] == sub[k]);
            } else if k < 6 {
                assert(sub.subrange(4, 6)[k - 4] == sub[k]);
            } else {
                assert(sub.subrange(6, 8)[k - 6] == sub[k]);
            }
        }
    }
    match (y, m, d) {
        (Some(y), Some(m), Some(d)) => crate::date::Date::from_ymd(y, m, d),
        _ => {
            proof {
                let sub = value@.subrange(start as int, start + 8);
                if crate::strutil::all_digits(sub) {
                    assert forall|k: int|
                        0 <= k < 4 implies crate::strutil::is_ascii_digit(
                        #[trigger] value@.subrange(start as int, start + 4)[k],
                    ) by {
                        assert(sub[k] == value@.subrange(start as int, start + 4)[k]);
                    }
                    assert forall|k: int|
                        0 <= k < 2 implies crate::strutil::is_ascii_digit(
                        #[trigger] value@.subrange(start + 4, start + 6)[k],
                    ) by {
                        assert(sub[k + 4] == value@.subrange(start + 4, start + 6)[k]);
                    }
                    assert forall|k: int|
                        0 <= k < 2 implies crate::strutil::is_ascii_digit(
                        #[trigger] value@.subrange(start + 6, start + 8)[k],
                    ) by {
                        assert(sub[k + 6] == value@.subrange(start + 6, start + 8)[k]);
                    }
                }
            }
            None
        },
    }
}

/// When the range expansion of a feed entry fails: the start date is
/// unreadable or outside the supported calendar, the end date is present but
/// unreadable, or the end date lies after the start and past the calendar
/// bound.
pub open spec fn extract_fails(start: Seq<char>, end: Option<Seq<char>>) -> bool {
    ||| parse_date_spec(start) is None
    ||| !(1 <= parse_date_spec(start).unwrap() <= RATA_DIE_MAX as int)
    ||| (end is Some && parse_date_spec(end.unwrap()) is None)
    ||| (end is Some && parse_date_spec(end.unwrap()) is Some && parse_date_spec(
        end.unwrap(),
    ).unwrap() > parse_date_spec(start).unwrap() && parse_date_spec(end.unwrap()).unwrap()
        > RATA_DIE_MAX + 1)
}

/// The days of a feed entry's range: every day from the start up to, and not
/// including, the end; the start alone when the end is absent or not after
/// the start.
pub open spec fn date_range_of(start: Seq<char>, end: Option<Seq<char>>) -> Seq<i64> {
    let s = parse_date_spec(start).unwrap();
    let n: int = if end is Some && parse_date_spec(end.unwrap()) is Some && parse_date_spec(
        end.unwrap(),
    ).unwrap() > s {
        parse_date_spec(end.unwrap()).unwrap() - s
    } else {
        1
    };
    Seq::new(n as nat, |k: int| (s + k) as i64)
}

/// Expands a feed entry's date range: with no end date, the start date alone;
/// with an end date at or before the start, the start date alone; otherwise
/// every day from the start up to, and not including, the end. Fails exactly
/// when a date cannot be read or the range leaves the supported calendar.
pub fn extract_event_dates(start_raw: &str, end_raw: Option<&String>) -> (r: Result<
    Vec<i64>,
    crate::error::Error,
>)
    ensures
        match r {
            Ok(v) => {
                &&& !extract_fails(
                    start_raw@,
                    match end_raw {
                        Some(e) => Some(e@),
                        None => None,
                    },
                )
                &&& v@ == date_range_of(
                    start_raw@,
                    match end_raw {
                        Some(e) => Some(e@),
                        None => None,
                    },
                )
                &&& sorted_strict(v@)
                &&& days_in_range(v@, 1, RATA_DIE_MAX as int)
                &&& v@.len() >= 1
                &&& v@[0] == parse_date_spec(start_raw@).unwrap()
            },
            Err(e) => e is Config && extract_fails(
                start_raw@,
                match end_raw {
                    Some(e) => Some(e@),
                    None => None,
                },
            ),
        },
{
    let start = match parse_date(start_raw) {
        Some(d) => d,
        None => {
            return Err(config_error("cannot read the holiday start date"));
        },
    };
    if start.day < 1 || start.day > RATA_DIE_MAX {
        return Err(config_error("holiday start date out of the supported range"));
    }
    let exclusive_end: i64 = match end_raw {
        Some(value) => {
            match parse_date(value.as_str()) {
                Some(d) => d.day,
                None => {
                    return Err(config_error("cannot read the holiday end date"));
                },
            }
        },
        None => start.day + 1,
    };
    let ghost endv: Option<Seq<char>> = match end_raw {
        Some(e) => Some(e@),
        None => None,
    };
    if exclusive_end <= start.day {
        let mut dates: Vec<i64> = Vec::new();
        dates.push(start.day);
        proof {
            assert(dates@ =~= date_range_of(start_raw@, endv));
        }
        return Ok(dates);
    }
    if exclusive_end > RATA_DIE_MAX + 1 {
        return Err(config_error("holiday end date out of the supported range"));
    }
    let mut dates: Vec<i64> = Vec::new();
    let mut current = start.day;
    while current < exclusive_end
        invariant
            start.day <= current <= exclusive_end,
            1 <= start.day,
            exclusive_end <= RATA_DIE_MAX + 1,
            dates@.len() == current - start.day,
            forall|k: int| 0 <= k < dates@.len() ==> #[trigger] dates@[k] == start.day + k,
            sorted_strict(dates@),
        decreases exclusive_end - current,
    {
        dates.push(current);
        current = current + 1;
    }
    proof {
        assert(dates@ =~= date_range_of(start_raw@, endv));
    }
    Ok(dates)
}

fn config_error(text: &str) -> (r: crate::error::Error)
    ensures
        r is Config,
{
    let mut msg = String::new();
    msg.append(text);
    crate::error::Error::Config(msg)
}


/// The classification of a feed entry, read from its properties.
pub open spec fn event_kind(e: HolidayIcalEvent) -> Option<HolidayEventKind> {
    classify_spec(
        lookup_value(e@, "X-APPLE-SPECIAL-DAY"@),
        lookup_value(e@, "SUMMARY"@),
    )
}

/// The days of a feed entry's range, read from its properties.
pub open spec fn event_days(e: HolidayIcalEvent) -> Seq<i64> {
    date_range_of(lookup_value(e@, "DTSTART"@).unwrap(), lookup_value(e@, "DTEND"@))
}

/// The digits under which a keyless entry's dates appear in its grouping key.
pub open spec fn fallback_digits(dates: Seq<i64>) -> Seq<char>
    decreases dates.len(),
{
    if dates.len() == 0 {
        Seq::empty()
    } else {
        fallback_digits(dates.drop_last()) + crate::strutil::fixed_digits(
            dates.last() as int,
            7,
        ) + seq![',']
    }
}

/// The grouping key of a keyless entry: its classification and its dates.
pub open spec fn fallback_key_spec(kind: HolidayEventKind, dates: Seq<i64>) -> Seq<char> {
    (match kind {
        HolidayEventKind::Rest => "rest-"@,
        HolidayEventKind::Makeup => "makeup-"@,
    }) + fallback_digits(dates)
}

/// The grouping key of a feed entry: its universal id, else its uid, else
/// its summary, else a key made from its classification and dates.
pub open spec fn event_key(e: HolidayIcalEvent, kind: HolidayEventKind, days: Seq<i64>) -> Seq<
    char,
> {
    match lookup_value(e@, "X-APPLE-UNIVERSAL-ID"@) {
        Some(k) => k,
        None => match lookup_value(e@, "UID"@) {
            Some(k) => k,
            None => match lookup_value(e@, "SUMMARY"@) {
                Some(k) => k,
                None => fallback_key_spec(kind, days),
            },
        },
    }
}

/// A group's mathematical value: its key and its two date sets.
pub ghost struct GroupSpec {
    pub key: Seq<char>,
    pub rest: Set<int>,
    pub makeup: Set<int>,
}

/// The position of the first group with the given key; the length when none
/// has it.
pub open spec fn group_key_index(acc: Seq<GroupSpec>, key: Seq<char>) -> int
    decreases acc.len(),
{
    if acc.len() == 0 {
        0
    } else if acc[0].key == key {
        0
    } else {
        1 + group_key_index(acc.skip(1), key)
    }
}

/// One classified entry accumulated into the groups: its dates join the rest
/// or make-up set of the group of its key, a new group forming when the key
/// is fresh.
pub open spec fn apply_event(acc: Seq<GroupSpec>, e: HolidayIcalEvent) -> Seq<GroupSpec> {
    let kind = event_kind(e).unwrap();
    let days = event_days(e);
    let dset = day_set(days);
    let key = event_key(e, kind, days);
    let idx = group_key_index(acc, key);
    let radd: Set<int> = if kind is Rest {
        dset
    } else {
        Set::empty()
    };
    let madd: Set<int> = if kind is Makeup {
        dset
    } else {
        Set::empty()
    };
    if idx < acc.len() {
        acc.update(
            idx,
            GroupSpec {
                key: acc[idx].key,
                rest: acc[idx].rest.union(radd),
                makeup: acc[idx].makeup.union(madd),
            },
        )
    } else {
        acc.push(GroupSpec { key, rest: radd, makeup: madd })
    }
}

/// The groups accumulated from the feed entries, in first-appearance order;
/// nothing when an entry that classifies has no readable date range.
pub open spec fn fold_events(events: Seq<HolidayIcalEvent>, acc: Seq<GroupSpec>) -> Option<
    Seq<GroupSpec>,
>
    decreases events.len(),
{
    if events.len() == 0 {
        Some(acc)
    } else {
        let e = events[0];
        if event_kind(e) is None {
            fold_events(events.skip(1), acc)
        } else if lookup_value(e@, "DTSTART"@) is None {
            None
        } else if extract_fails(
            lookup_value(e@, "DTSTART"@).unwrap(),
            lookup_value(e@, "DTEND"@),
        ) {
            None
        } else {
            fold_events(events.skip(1), apply_event(acc, e))
        }
    }
}

/// The mathematical values of built groups.
pub open spec fn group_specs_of(gs: Seq<HolidayGroup>) -> Seq<GroupSpec> {
    gs.map_values(
        |g: HolidayGroup| GroupSpec { key: g.key@, rest: day_set(g.rest@), makeup: day_set(g.makeup@) },
    )
}

/// Whether built groups carry exactly the keys and date sets of the
/// accumulated groups.
pub open spec fn groups_match(gs: Seq<HolidayGroupView>, f: Seq<GroupSpec>) -> bool {
    &&& gs.len() == f.len()
    &&& forall|i: int|
        0 <= i < gs.len() ==> (#[trigger] gs[i]).key == f[i].key && day_set(gs[i].rest) == f[i].rest
            && day_set(gs[i].makeup) == f[i].makeup
}

/// Accumulates classified feed entries into groups, keyed by the entry's
/// universal id, else its uid, else its summary, else a key made from its
/// classification and dates; groups stand in first-appearance order. Each
/// classified entry contributes exactly its extracted dates to the rest or
/// make-up set of the group of its key, and nothing else. Fails when an
/// entry that classifies has no start date or an unreadable date range.
#[verifier::rlimit(100)]
#[verifier::spinoff_prover]
pub fn events_to_groups(events: &Vec<HolidayIcalEvent>) -> (r: Result<
    Vec<HolidayGroup>,
    crate::error::Error,
>)
    ensures
        match r {
            Ok(gs) => {
                &&& fold_events(events@, Seq::empty()) is Some
                &&& groups_match(group_views(gs@), fold_events(events@, Seq::empty()).unwrap())
                &&& forall|gi: int| 0 <= gi < gs@.len() ==> (#[trigger] gs@[gi]@).wf()
            },
            Err(e) => e is Config && fold_events(events@, Seq::empty()) is None,
        },
{
    let mut groups: Vec<HolidayGroup> = Vec::new();
    proof {
        assert(events@.skip(0) =~= events@);
        assert(group_specs_of(groups@) =~= Seq::<GroupSpec>::empty());
    }
    let mut ei: usize = 0;
    while ei < events.len()
        invariant
            0 <= ei <= events@.len(),
            forall|gi: int| 0 <= gi < groups@.len() ==> (#[trigger] groups@[gi]@).wf(),
            fold_events(events@, Seq::empty()) == fold_events(
                events@.skip(ei as int),
                group_specs_of(groups@),
            ),
        decreases events@.len() - ei,
    {
        let event = &events[ei];
        let ghost e = events@[ei as int];
        proof {
            assert(events@.skip(ei as int)[0] == e);
            assert(events@.skip(ei as int).skip(1) =~= events@.skip(ei + 1));
        }
        let tag = event_property(event, "X-APPLE-SPECIAL-DAY");
        let summary = event_property(event, "SUMMARY");
        let kind = match classify_event(tag, summary) {
            Some(kind) => kind,
            None => {
                proof {
                    assert(event_kind(e) is None);
                }
                ei = ei + 1;
                continue;
            },
        };
        proof {
            assert(event_kind(e) == Some(kind));
        }
        let start_raw = match event_property(event, "DTSTART") {
            Some(v) => v,
            None => {
                proof {
                    assert(lookup_value(e@, "DTSTART"@) is None);
                    assert(fold_events(events@.skip(ei as int), group_specs_of(groups@)) is None);
                }
                return Err(config_error("a holiday feed entry has no start date"));
            },
        };
        let end_raw = event_property(event, "DTEND");
        let ghost endv: Option<Seq<char>> = match end_raw {
            Some(v) => Some(v@),
            None => None,
        };
        proof {
            assert(endv == lookup_value(e@, "DTEND"@));
        }
        let dates = match extract_event_dates(start_raw.as_str(), end_raw) {
            Ok(dates) => dates,
            Err(err) => {
                proof {
                    assert(extract_fails(lookup_value(e@, "DTSTART"@).unwrap(), endv));
                    assert(fold_events(events@.skip(ei as int), group_specs_of(groups@)) is None);
                }
                return Err(err);
            },
        };
        proof {
            assert(dates@ == event_days(e));
        }
        let key = match event_property(event, "X-APPLE-UNIVERSAL-ID") {
            Some(v) => v.clone(),
            None => match event_property(event, "UID") {
                Some(v) => v.clone(),
                None => match event_property(event, "SUMMARY") {
                    Some(v) => v.clone(),
                    None => fallback_key(kind, &dates),
                },
            },
        };
        proof {
            assert(key@ == event_key(e, kind, dates@));
        }
        let ghost pre_specs = group_specs_of(groups@);
        let mut idx = groups.len();
        let mut i: usize = 0;
        proof {
            assert(pre_specs.skip(0) =~= pre_specs);
        }
        while i < groups.len()
            invariant_except_break
                0 <= i <= groups@.len(),
                idx == groups@.len(),
                pre_specs == group_specs_of(groups@),
                pre_specs.len() == groups@.len(),
                group_key_index(pre_specs, key@) == i + group_key_index(
                    pre_specs.skip(i as int),
                    key@,
                ),
            ensures
                pre_specs == group_specs_of(groups@),
                idx <= groups@.len(),
                idx < groups@.len() ==> idx as int == group_key_index(pre_specs, key@),
                idx == groups@.len() ==> group_key_index(pre_specs, key@) >= pre_specs.len(),
            decreases groups@.len() - i,
        {
            proof {
                assert(pre_specs.skip(i as int)[0] == pre_specs[i as int]);
                assert(pre_specs.skip(i as int).skip(1) =~= pre_specs.skip(i + 1));
            }
            if crate::strutil::str_eq(groups[i].key.as_str(), key.as_str()) {
                idx = i;
                proof {
                    assert(pre_specs[i as int].key == key@);
                    assert(group_key_index(pre_specs.skip(i as int), key@) == 0);
                }
                break;
            }
            i = i + 1;
            proof {
                if i == groups@.len() {
                    assert(pre_specs.skip(groups@.len() as int) =~= Seq::<GroupSpec>::empty());
                }
            }
        }
        let ghost fresh = idx == groups@.len();
        if idx == groups.len() {
            let ghost pre_push = groups@;
            groups.push(HolidayGroup { key, rest: Vec::new(), makeup: Vec::new() });
            proof {
                let g = groups@.last();
                assert(g@.rest =~= Seq::<i64>::empty());
                assert(g@.makeup =~= Seq::<i64>::empty());
                assert(day_set(g@.rest) =~= Set::<int>::empty());
                assert(day_set(g@.makeup) =~= Set::<int>::empty());
                assert(g@.wf());
                assert(group_specs_of(groups@) =~= pre_specs.push(
                    GroupSpec { key: key@, rest: Set::empty(), makeup: Set::empty() },
                ));
            }
        }
        let ghost mid_groups = groups@;
        let ghost mid_specs = group_specs_of(groups@);
        let mut entry = groups.remove(idx);
        let ghost pre_rest_set = day_set(entry.rest@);
        let ghost pre_makeup_set = day_set(entry.makeup@);
        proof {
            assert(entry@.key == mid_specs[idx as int].key);
            assert(pre_rest_set == mid_specs[idx as int].rest);
            assert(pre_makeup_set == mid_specs[idx as int].makeup);
            assert(dates@.take(0) =~= Seq::<i64>::empty());
            assert(day_set(Seq::<i64>::empty()) =~= Set::<int>::empty());
            assert(pre_rest_set.union(day_set(dates@.take(0))) =~= pre_rest_set);
            assert(pre_makeup_set.union(day_set(dates@.take(0))) =~= pre_makeup_set);
        }
        let ghost entry_key = entry@.key;
        match kind {
            HolidayEventKind::Rest => {
                let mut di: usize = 0;
                while di < dates.len()
                    invariant
                        0 <= di <= dates@.len(),
                        days_in_range(dates@, 1, RATA_DIE_MAX as int),
                        entry@.wf(),
                        entry@.key == entry_key,
                        entry@.makeup == mid_groups[idx as int]@.makeup,
                        day_set(entry.rest@) == pre_rest_set.union(day_set(dates@.take(di as int))),
                    decreases dates@.len() - di,
                {
                    proof {
                        lemma_day_set_take_step(dates@, di as int);
                    }
                    insert_sorted_dedup(&mut entry.rest, dates[di]);
                    proof {
                        assert(day_set(entry.rest@) =~= pre_rest_set.union(
                            day_set(dates@.take(di + 1)),
                        ));
                    }
                    di = di + 1;
                }
            },
            HolidayEventKind::Makeup => {
                let mut di: usize = 0;
                while di < dates.len()
                    invariant
                        0 <= di <= dates@.len(),
                        days_in_range(dates@, 1, RATA_DIE_MAX as int),
                        entry@.wf(),
                        entry@.key == entry_key,
                        entry@.rest == mid_groups[idx as int]@.rest,
                        day_set(entry.makeup@) == pre_makeup_set.union(
                            day_set(dates@.take(di as int)),
                        ),
                    decreases dates@.len() - di,
                {
                    proof {
                        lemma_day_set_take_step(dates@, di as int);
                    }
                    insert_sorted_dedup(&mut entry.makeup, dates[di]);
                    proof {
                        assert(day_set(entry.makeup@) =~= pre_makeup_set.union(
                            day_set(dates@.take(di + 1)),
                        ));
                    }
                    di = di + 1;
                }
            },
        }
        let ghost pre_insert = groups@;
        groups.insert(idx, entry);
        proof {
            assert(dates@.take(dates@.len() as int) =~= dates@);
            assert(groups@ =~= mid_groups.update(idx as int, groups@[idx as int]));
            let applied = apply_event(pre_specs, e);
            let dset = day_set(dates@);
            if fresh {
                assert(Set::<int>::empty().union(dset) =~= dset);
                assert(group_specs_of(groups@) =~= applied);
            } else {
                assert(group_specs_of(groups@) =~= applied);
            }
            assert forall|gi: int|
                0 <= gi < groups@.len() implies (#[trigger] groups@[gi]@).wf() by {
                if gi != idx {
                    assert(groups@[gi] == mid_groups[gi]);
                }
            }
            assert(fold_events(events@.skip(ei as int), pre_specs) == fold_events(
                events@.skip(ei + 1),
                applied,
            ));
        }
        ei = ei + 1;
    }
    proof {
        assert(events@.skip(events@.len() as int) =~= Seq::<HolidayIcalEvent>::empty());
        assert forall|i: int|
            0 <= i < groups@.len() implies (#[trigger] group_views(groups@)[i]).key
            == group_specs_of(groups@)[i].key && day_set(group_views(groups@)[i].rest)
            == group_specs_of(groups@)[i].rest && day_set(group_views(groups@)[i].makeup)
            == group_specs_of(groups@)[i].makeup by {}
    }
    Ok(groups)
}

/// A grouping key for an entry with no id and no summary, made from its
/// classification and its dates.
fn fallback_key(kind: HolidayEventKind, dates: &Vec<i64>) -> (r: String)
    requires
        days_in_range(dates@, 1, RATA_DIE_MAX as int),
    ensures
        r@ == fallback_key_spec(kind, dates@),
{
    let mut key = String::new();
    match kind {
        HolidayEventKind::Rest => key.append("rest-"),
        HolidayEventKind::Makeup => key.append("makeup-"),
    }
    let ghost prefix = key@;
    proof {
        assert(pow10(7) == 10000000) by {
            assert(pow10(0) == 1);
            assert(pow10(1) == 10);
            assert(pow10(2) == 100);
            assert(pow10(3) == 1000);
            assert(pow10(4) == 10000);
            assert(pow10(5) == 100000);
            assert(pow10(6) == 1000000);
        }
        assert(dates@.take(0) =~= Seq::<i64>::empty());
        assert(key@ =~= prefix + fallback_digits(dates@.take(0)));
    }
    let mut i: usize = 0;
    while i < dates.len()
        invariant
            0 <= i <= dates@.len(),
            days_in_range(dates@, 1, RATA_DIE_MAX as int),
            pow10(7) == 10000000,
            key@ == prefix + fallback_digits(dates@.take(i as int)),
        decreases dates@.len() - i,
    {
        proof {
            let sub = dates@.take(i + 1);
            assert(sub.drop_last() =~= dates@.take(i as int));
            assert(sub.last() == dates@[i as int]);
        }
        push_fixed_digits(&mut key, dates[i] as u32, 7);
        crate::strutil::push_char(&mut key, ',');
        proof {
            assert(key@ =~= prefix + fallback_digits(dates@.take(i + 1)));
        }
        i = i + 1;
    }
    proof {
        assert(dates@.take(dates@.len() as int) =~= dates@);
    }
    key
}

impl HolidayCalendar {
    /// Builds the calendar from a list of parsed feed entries:
    /// classification, grouping, and matching in one step. The calendar
    /// carries the full builder guarantees over well-formed groups whose
    /// keys and date sets are exactly those accumulated from the entries.
    pub fn from_events(events: &Vec<HolidayIcalEvent>) -> (r: Result<
        HolidayCalendar,
        crate::error::Error,
    >)
        ensures
            match r {
                Ok(cal) => {
                    &&& fold_events(events@, Seq::empty()) is Some
                    &&& exists|gs: Seq<HolidayGroupView>|
                        {
                            &&& #[trigger] groups_match(
                                gs,
                                fold_events(events@, Seq::empty()).unwrap(),
                            )
                            &&& forall|i: int| 0 <= i < gs.len() ==> (#[trigger] gs[i]).wf()
                            &&& build_result_ok(gs, cal)
                        }
                },
                Err(e) => e is Config && fold_events(events@, Seq::empty()) is None,
            },
    {
        match events_to_groups(events) {
            Ok(groups) => {
                let r = HolidayCalendar::build(&groups);
                proof {
                    match &r {
                        Ok(cal) => {
                            let gs = group_views(groups@);
                            assert(groups_match(gs, fold_events(events@, Seq::empty()).unwrap())
                                && (forall|i: int| 0 <= i < gs.len() ==> (#[trigger] gs[i]).wf())
                                && build_result_ok(gs, *cal));
                        },
                        Err(_) => {
                            assert(false);
                        },
                    }
                }
                r
            },
            Err(e) => Err(e),
        }
    }
}

/// The mathematical values of a list of groups.
pub open spec fn group_views(groups: Seq<HolidayGroup>) -> Seq<HolidayGroupView> {
    groups.map_values(|g: HolidayGroup| g@)
}

/// The rest dates contributed by the groups: every group with a nonempty
/// rest set contributes its rest dates.
pub open spec fn groups_rest_union(gs: Seq<HolidayGroupView>) -> Set<int>
    decreases gs.len(),
{
    if gs.len() == 0 {
        Set::empty()
    } else {
        let head: Set<int> = if gs[0].rest.len() > 0 {
            day_set(gs[0].rest)
        } else {
            Set::empty()
        };
        head.union(groups_rest_union(gs.skip(1)))
    }
}

/// The make-up dates contributed by the groups: every group with a nonempty
/// rest set contributes its make-up dates.
pub open spec fn groups_makeup_union(gs: Seq<HolidayGroupView>) -> Set<int>
    decreases gs.len(),
{
    if gs.len() == 0 {
        Set::empty()
    } else {
        let head: Set<int> = if gs[0].rest.len() > 0 {
            day_set(gs[0].makeup)
        } else {
            Set::empty()
        };
        head.union(groups_makeup_union(gs.skip(1)))
    }
}

/// Whether one of the first `n` groups accounts for the matched pair: the
/// rest date is the group's, the make-up date is the group's, and the make-up
/// date lies in the search window of the rest date's cluster.
pub open spec fn entry_from_groups_upto(gs: Seq<HolidayGroupView>, n: int, p: (i64, i64)) -> bool {
    exists|gi: int|
        0 <= gi < n <= gs.len() && (#[trigger] gs[gi]).rest.contains(p.0) && gs[gi].makeup.contains(
            p.1,
        ) && pair_in_cluster_window(gs[gi].rest, p)
}

proof fn lemma_entry_upto_mono(gs: Seq<HolidayGroupView>, n1: int, n2: int, p: (i64, i64))
    requires
        entry_from_groups_upto(gs, n1, p),
        n1 <= n2 <= gs.len(),
    ensures
        entry_from_groups_upto(gs, n2, p),
{
    let gi = choose|gi: int|
        0 <= gi < n1 <= gs.len() && (#[trigger] gs[gi]).rest.contains(p.0)
            && gs[gi].makeup.contains(p.1) && pair_in_cluster_window(gs[gi].rest, p);
    assert(0 <= gi < n2 <= gs.len() && (gs[gi]).rest.contains(p.0) && gs[gi].makeup.contains(p.1)
        && pair_in_cluster_window(gs[gi].rest, p));
}

proof fn lemma_day_set_take_step(s: Seq<i64>, j: int)
    requires
        0 <= j < s.len(),
    ensures
        day_set(s.take(j + 1)) == day_set(s.take(j)).insert(s[j] as int),
{
    assert(day_set(s.take(j + 1)) =~= day_set(s.take(j)).insert(s[j] as int)) by {
        assert forall|d: int| day_set(s.take(j + 1)).contains(d) implies day_set(s.take(j)).insert(
            s[j] as int,
        ).contains(d) by {
            let k = choose|k: int| 0 <= k < j + 1 && #[trigger] s.take(j + 1)[k] == d;
            if k < j {
                assert(s.take(j)[k] == d);
            }
        }
        assert forall|d: int| day_set(s.take(j)).insert(s[j] as int).contains(d) implies day_set(
            s.take(j + 1),
        ).contains(d) by {
            if d == s[j] as int {
                assert(s.take(j + 1)[j] == d);
            } else {
                let k = choose|k: int| 0 <= k < j && #[trigger] s.take(j)[k] == d;
                assert(s.take(j + 1)[k] == d);
            }
        }
    }
}


/// What per-group matching guarantees of a group's pair list, with the
/// clusters and the consumed pool read off the group's rest and make-up
/// dates: soundness, window containment, distinct make-up dates, ascending
/// keys, and the per-cluster pair counts.
pub open spec fn group_pairs_ok(rest: Seq<i64>, makeup: Seq<i64>, pairs: Seq<(i64, i64)>) -> bool {
    &&& forall|k: int|
        0 <= k < pairs.len() ==> rest.contains((#[trigger] pairs[k]).0) && makeup.contains(
            pairs[k].1,
        ) && pair_in_cluster_window(rest, pairs[k])
    &&& sorted_strict(pairs.map_values(|p: (i64, i64)| p.0))
    &&& forall|a: int, b: int|
        0 <= a < b < pairs.len() ==> (#[trigger] pairs[a]).1 != (#[trigger] pairs[b]).1
    &&& forall|ci: int|
        0 <= ci < cluster_split(rest, CLUSTER_GAP_DAYS as int).len() ==> (#[trigger] pairs.filter(
            in_cluster_pred(cluster_split(rest, CLUSTER_GAP_DAYS as int)[ci]),
        )).len() == min_int(
            cluster_split(rest, CLUSTER_GAP_DAYS as int)[ci].len() as int,
            window_candidates(
                cluster_pool(makeup, cluster_split(rest, CLUSTER_GAP_DAYS as int), ci),
                cluster_split(rest, CLUSTER_GAP_DAYS as int)[ci],
            ).len() as int,
        )
}

/// The map after binding the pairs in order, later pairs overwriting.
pub open spec fn insert_pairs_map(acc: Map<int, int>, pairs: Seq<(i64, i64)>) -> Map<int, int>
    decreases pairs.len(),
{
    if pairs.len() == 0 {
        acc
    } else {
        insert_pairs_map(acc, pairs.drop_last()).insert(
            pairs.last().0 as int,
            pairs.last().1 as int,
        )
    }
}

/// The matching map of a whole feed: each group's pairs bound in group
/// order, later groups overwriting earlier ones on a shared rest date.
pub open spec fn fold_group_maps(all_pairs: Seq<Seq<(i64, i64)>>) -> Map<int, int>
    decreases all_pairs.len(),
{
    if all_pairs.len() == 0 {
        Map::empty()
    } else {
        insert_pairs_map(fold_group_maps(all_pairs.drop_last()), all_pairs.last())
    }
}

/// Everything the builder guarantees of a calendar built from the given
/// groups: well-formedness, exact date sets, soundness of every binding, and
/// a per-group pair list, each meeting the matcher's guarantees, whose
/// ordered merge is exactly the matching map.
pub open spec fn build_result_ok(gs: Seq<HolidayGroupView>, cal: HolidayCalendar) -> bool {
    &&& cal.wf()
    &&& cal.rest_set() == groups_rest_union(gs)
    &&& cal.makeup_set() == groups_makeup_union(gs)
    &&& forall|k: int|
        #[trigger] cal.map_view().dom().contains(k) ==> exists|p: (i64, i64)|
            (#[trigger] entry_from_groups_upto(gs, gs.len() as int, p)) && p.0 == k && p.1
                == cal.map_view()[k]
    &&& exists|all_pairs: Seq<Seq<(i64, i64)>>|
        {
            &&& all_pairs.len() == gs.len()
            &&& forall|gi: int|
                0 <= gi < gs.len() ==> if gs[gi].rest.len() > 0 && gs[gi].makeup.len() > 0 {
                    group_pairs_ok(gs[gi].rest, gs[gi].makeup, #[trigger] all_pairs[gi])
                } else {
                    all_pairs[gi] == Seq::<(i64, i64)>::empty()
                }
            &&& cal.map_view() == #[trigger] fold_group_maps(all_pairs)
        }
}

impl HolidayCalendar {
    /// Builds the calendar from the classified groups, in their given order:
    /// each group with rest dates contributes its rest and make-up dates, and
    /// each group with both gets its rest dates matched to its make-up dates
    /// cluster by cluster. Every matched rest date is a rest date; every date
    /// it is matched to is a make-up date of the same group, inside the
    /// search window of the rest date's cluster.
    #[verifier::rlimit(100)]
    pub fn build(groups: &Vec<HolidayGroup>) -> (r: Result<HolidayCalendar, crate::error::Error>)
        requires
            forall|gi: int| 0 <= gi < groups@.len() ==> (#[trigger] groups@[gi]@).wf(),
        ensures
            match r {
                Ok(cal) => build_result_ok(group_views(groups@), cal),
                Err(_) => false,
            },
    {
        let ghost gviews = group_views(groups@);
        let mut rest_days: Vec<i64> = Vec::new();
        let mut makeup_days: Vec<i64> = Vec::new();
        let mut rest_to_makeup: Vec<(i64, i64)> = Vec::new();
        let ghost mut allp: Seq<Seq<(i64, i64)>> = Seq::empty();
        let mut gi: usize = 0;
        proof {
            assert(gviews.skip(0) =~= gviews);
            assert(kv_map(rest_to_makeup@) =~= fold_group_maps(allp));
            assert(day_set(rest_days@) =~= Set::<int>::empty());
            assert(day_set(makeup_days@) =~= Set::<int>::empty());
            assert(Set::<int>::empty().union(groups_rest_union(gviews)) =~= groups_rest_union(
                gviews,
            ));
            assert(Set::<int>::empty().union(groups_makeup_union(gviews)) =~= groups_makeup_union(
                gviews,
            ));
        }
        while gi < groups.len()
            invariant
                0 <= gi <= groups@.len(),
                gviews == group_views(groups@),
                forall|k: int| 0 <= k < groups@.len() ==> (#[trigger] groups@[k]@).wf(),
                sorted_strict(rest_days@),
                sorted_strict(makeup_days@),
                days_in_range(rest_days@, 1, RATA_DIE_MAX as int),
                days_in_range(makeup_days@, 1, RATA_DIE_MAX as int),
                sorted_strict(rest_to_makeup@.map_values(|p: (i64, i64)| p.0)),
                groups_rest_union(gviews) == day_set(rest_days@).union(
                    groups_rest_union(gviews.skip(gi as int)),
                ),
                groups_makeup_union(gviews) == day_set(makeup_days@).union(
                    groups_makeup_union(gviews.skip(gi as int)),
                ),
                forall|e: int|
                    0 <= e < rest_to_makeup@.len() ==> entry_from_groups_upto(
                        gviews,
                        gi as int,
                        #[trigger] rest_to_makeup@[e],
                    ),
                forall|e: int|
                    0 <= e < rest_to_makeup@.len() ==> day_set(rest_days@).contains(
                        (#[trigger] rest_to_makeup@[e]).0 as int,
                    ) && day_set(makeup_days@).contains(rest_to_makeup@[e].1 as int),
                forall|e: int|
                    0 <= e < rest_to_makeup@.len() ==> 1 <= (#[trigger] rest_to_makeup@[e]).0
                        <= RATA_DIE_MAX && 1 <= rest_to_makeup@[e].1 <= RATA_DIE_MAX,
                allp.len() == gi,
                forall|g2: int|
                    0 <= g2 < gi ==> if gviews[g2].rest.len() > 0 && gviews[g2].makeup.len() > 0 {
                        group_pairs_ok(gviews[g2].rest, gviews[g2].makeup, #[trigger] allp[g2])
                    } else {
                        allp[g2] == Seq::<(i64, i64)>::empty()
                    },
                kv_map(rest_to_makeup@) == fold_group_maps(allp),
            decreases groups@.len() - gi,
        {
            let group = &groups[gi];
            proof {
                assert(group@ == gviews[gi as int]);
                assert(gviews.skip(gi as int)[0] == gviews[gi as int]);
                assert(gviews.skip(gi as int).skip(1) =~= gviews.skip(gi + 1));
            }
            if group.rest.len() == 0 {
                proof {
                    let ghost pre_allp = allp;
                    allp = allp.push(Seq::empty());
                    assert(allp.drop_last() =~= pre_allp);
                    assert(fold_group_maps(allp) == fold_group_maps(pre_allp));
                }
                gi = gi + 1;
                continue;
            }
            let ghost pre_rest_set = day_set(rest_days@);
            let ghost pre_makeup_set = day_set(makeup_days@);
            let mut j: usize = 0;
            while j < group.rest.len()
                invariant
                    0 <= j <= group@.rest.len(),
                    group@.wf(),
                    sorted_strict(rest_days@),
                    days_in_range(rest_days@, 1, RATA_DIE_MAX as int),
                    day_set(rest_days@) == pre_rest_set.union(day_set(group@.rest.take(j as int))),
                decreases group@.rest.len() - j,
            {
                proof {
                    lemma_day_set_take_step(group@.rest, j as int);
                }
                insert_sorted_dedup(&mut rest_days, group.rest[j]);
                proof {
                    assert(day_set(rest_days@) =~= pre_rest_set.union(
                        day_set(group@.rest.take(j + 1)),
                    ));
                }
                j = j + 1;
            }
            let mut j: usize = 0;
            while j < group.makeup.len()
                invariant
                    0 <= j <= group@.makeup.len(),
                    group@.wf(),
                    sorted_strict(makeup_days@),
                    days_in_range(makeup_days@, 1, RATA_DIE_MAX as int),
                    day_set(makeup_days@) == pre_makeup_set.union(
                        day_set(group@.makeup.take(j as int)),
                    ),
                decreases group@.makeup.len() - j,
            {
                proof {
                    lemma_day_set_take_step(group@.makeup, j as int);
                }
                insert_sorted_dedup(&mut makeup_days, group.makeup[j]);
                proof {
                    assert(day_set(makeup_days@) =~= pre_makeup_set.union(
                        day_set(group@.makeup.take(j + 1)),
                    ));
                }
                j = j + 1;
            }
            proof {
                assert(group@.rest.take(group@.rest.len() as int) =~= group@.rest);
                assert(group@.makeup.take(group@.makeup.len() as int) =~= group@.makeup);
                assert(groups_rest_union(gviews) =~= day_set(rest_days@).union(
                    groups_rest_union(gviews.skip(gi + 1)),
                ));
                assert(groups_makeup_union(gviews) =~= day_set(makeup_days@).union(
                    groups_makeup_union(gviews.skip(gi + 1)),
                ));
                assert forall|e: int|
                    0 <= e < rest_to_makeup@.len() implies day_set(rest_days@).contains(
                    (#[trigger] rest_to_makeup@[e]).0 as int,
                ) && day_set(makeup_days@).contains(rest_to_makeup@[e].1 as int) by {
                    assert(pre_rest_set.contains(rest_to_makeup@[e].0 as int));
                    assert(pre_makeup_set.contains(rest_to_makeup@[e].1 as int));
                }
            }
            if group.makeup.len() == 0 {
                proof {
                    assert forall|e: int|
                        0 <= e < rest_to_makeup@.len() implies entry_from_groups_upto(
                        gviews,
                        gi + 1,
                        #[trigger] rest_to_makeup@[e],
                    ) by {
                        lemma_entry_upto_mono(gviews, gi as int, gi + 1, rest_to_makeup@[e]);
                    }
                }
                proof {
                    let ghost pre_allp = allp;
                    allp = allp.push(Seq::empty());
                    assert(allp.drop_last() =~= pre_allp);
                    assert(fold_group_maps(allp) == fold_group_maps(pre_allp));
                }
                gi = gi + 1;
                continue;
            }
            let pairs = match_group(&group.rest, &group.makeup);
            let ghost pre_map = kv_map(rest_to_makeup@);
            proof {
                assert(group_pairs_ok(group@.rest, group@.makeup, pairs@));
                assert(pairs@.take(0) =~= Seq::<(i64, i64)>::empty());
            }
            let mut pi: usize = 0;
            while pi < pairs.len()
                invariant
                    0 <= pi <= pairs@.len(),
                    gviews == group_views(groups@),
                    0 <= gi < groups@.len(),
                    group@ == gviews[gi as int],
                    group@.wf(),
                    forall|k: int|
                        0 <= k < pairs@.len() ==> group@.rest.contains((#[trigger] pairs@[k]).0)
                            && group@.makeup.contains(pairs@[k].1) && pair_in_cluster_window(
                            group@.rest,
                            pairs@[k],
                        ),
                    sorted_strict(rest_to_makeup@.map_values(|p: (i64, i64)| p.0)),
                    forall|x: i64| group@.rest.contains(x) ==> day_set(rest_days@).contains(
                        x as int,
                    ),
                    forall|x: i64| group@.makeup.contains(x) ==> day_set(makeup_days@).contains(
                        x as int,
                    ),
                    forall|e: int|
                        0 <= e < rest_to_makeup@.len() ==> entry_from_groups_upto(
                            gviews,
                            gi + 1,
                            #[trigger] rest_to_makeup@[e],
                        ),
                    forall|e: int|
                        0 <= e < rest_to_makeup@.len() ==> day_set(rest_days@).contains(
                            (#[trigger] rest_to_makeup@[e]).0 as int,
                        ) && day_set(makeup_days@).contains(rest_to_makeup@[e].1 as int),
                    forall|e: int|
                        0 <= e < rest_to_makeup@.len() ==> 1 <= (#[trigger] rest_to_makeup@[e]).0
                            <= RATA_DIE_MAX && 1 <= rest_to_makeup@[e].1 <= RATA_DIE_MAX,
                    allp.len() == gi,
                    pre_map == fold_group_maps(allp),
                    kv_map(rest_to_makeup@) == insert_pairs_map(pre_map, pairs@.take(pi as int)),
                    group_pairs_ok(group@.rest, group@.makeup, pairs@),
                    forall|g2: int|
                        0 <= g2 < gi ==> if gviews[g2].rest.len() > 0 && gviews[g2].makeup.len()
                            > 0 {
                            group_pairs_ok(gviews[g2].rest, gviews[g2].makeup, #[trigger] allp[g2])
                        } else {
                            allp[g2] == Seq::<(i64, i64)>::empty()
                        },
                decreases pairs@.len() - pi,
            {
                let (k, v) = pairs[pi];
                let ghost pre_entries = rest_to_makeup@;
                proof {
                    let sub = pairs@.take(pi + 1);
                    assert(sub.drop_last() =~= pairs@.take(pi as int));
                    assert(sub.last() == pairs@[pi as int]);
                    assert(group@.rest.contains(k));
                    assert(group@.makeup.contains(v));
                    let m = choose|m: int|
                        0 <= m < group@.rest.len() && #[trigger] group@.rest[m] == k;
                    let m2 = choose|m: int|
                        0 <= m < group@.makeup.len() && #[trigger] group@.makeup[m] == v;
                }
                insert_kv(&mut rest_to_makeup, k, v);
                proof {
                    assert forall|e: int|
                        0 <= e < rest_to_makeup@.len() implies entry_from_groups_upto(
                        gviews,
                        gi + 1,
                        #[trigger] rest_to_makeup@[e],
                    ) && day_set(rest_days@).contains(rest_to_makeup@[e].0 as int) && day_set(
                        makeup_days@,
                    ).contains(rest_to_makeup@[e].1 as int) && 1 <= rest_to_makeup@[e].0
                        <= RATA_DIE_MAX && 1 <= rest_to_makeup@[e].1 <= RATA_DIE_MAX by {
                        if rest_to_makeup@[e] == (k, v) {
                            assert(0 <= gi < gi + 1 <= gviews.len() && (
                            #[trigger] gviews[gi as int]).rest.contains(k)
                                && gviews[gi as int].makeup.contains(v) && pair_in_cluster_window(
                                gviews[gi as int].rest,
                                (k, v),
                            ));
                        } else {
                            let jj = choose|jj: int|
                                0 <= jj < pre_entries.len() && #[trigger] rest_to_makeup@[e]
                                    == pre_entries[jj];
                        }
                    }
                }
                pi = pi + 1;
            }
            proof {
                assert(pairs@.take(pairs@.len() as int) =~= pairs@);
                let ghost pre_allp = allp;
                allp = allp.push(pairs@);
                assert(allp.drop_last() =~= pre_allp);
                assert(fold_group_maps(allp) == insert_pairs_map(
                    fold_group_maps(pre_allp),
                    pairs@,
                ));
            }
            gi = gi + 1;
        }
        proof {
            assert(gviews.skip(gviews.len() as int) =~= Seq::<HolidayGroupView>::empty());
            assert(groups_rest_union(gviews) =~= day_set(rest_days@));
            assert(groups_makeup_union(gviews) =~= day_set(makeup_days@));
        }
        let cal = HolidayCalendar { rest_days, rest_to_makeup, makeup_days };
        proof {
            assert forall|a: int, b: int|
                0 <= a < b < cal.rest_to_makeup@.len() implies (#[trigger] cal.rest_to_makeup@[a].0)
                != (#[trigger] cal.rest_to_makeup@[b].0) by {
                lemma_sorted_map_keys_ordered(cal.rest_to_makeup@, a, b);
            }
            assert forall|k: int| #[trigger]
                cal.map_view().dom().contains(k) implies exists|p: (i64, i64)|
                (#[trigger] entry_from_groups_upto(gviews, gviews.len() as int, p)) && p.0 == k
                    && p.1 == cal.map_view()[k] by {
                lemma_kv_map_dom(cal.rest_to_makeup@, k);
                let i = choose|i: int|
                    0 <= i < cal.rest_to_makeup@.len() && #[trigger] cal.rest_to_makeup@[i].0 == k;
                lemma_kv_map_at(cal.rest_to_makeup@, i);
                let p = cal.rest_to_makeup@[i];
                assert(entry_from_groups_upto(gviews, gviews.len() as int, p) && p.0 == k && p.1
                    == cal.map_view()[k]);
            }
            assert(cal.map_view() == fold_group_maps(allp));
            assert(allp.len() == gviews.len());
            assert((exists|all_pairs: Seq<Seq<(i64, i64)>>|
                {
                    &&& all_pairs.len() == gviews.len()
                    &&& forall|g2: int|
                        0 <= g2 < gviews.len() ==> if gviews[g2].rest.len() > 0
                            && gviews[g2].makeup.len() > 0 {
                            group_pairs_ok(
                                gviews[g2].rest,
                                gviews[g2].makeup,
                                #[trigger] all_pairs[g2],
                            )
                        } else {
                            all_pairs[g2] == Seq::<(i64, i64)>::empty()
                        }
                    &&& cal.map_view() == #[trigger] fold_group_maps(all_pairs)
                })) by {
                assert(allp.len() == gviews.len() && (forall|g2: int|
                    0 <= g2 < gviews.len() ==> if gviews[g2].rest.len() > 0
                        && gviews[g2].makeup.len() > 0 {
                        group_pairs_ok(gviews[g2].rest, gviews[g2].makeup, #[trigger] allp[g2])
                    } else {
                        allp[g2] == Seq::<(i64, i64)>::empty()
                    }) && cal.map_view() == fold_group_maps(allp));
            }
            assert(build_result_ok(gviews, cal));
        }
        Ok(cal)
    }
}

impl HolidayCalendar {
    /// Every matched rest date and its make-up date lie in the supported
    /// calendar range.
    proof fn lemma_map_ranges(&self)
        requires
            self.wf(),
        ensures
            forall|k: int|
                #[trigger] self.map_view().dom().contains(k) ==> 1 <= k <= RATA_DIE_MAX && 1
                    <= self.map_view()[k] <= RATA_DIE_MAX,
    {
        assert forall|k: int| #[trigger]
            self.map_view().dom().contains(k) implies 1 <= k <= RATA_DIE_MAX && 1
            <= self.map_view()[k] <= RATA_DIE_MAX by {
            lemma_kv_map_dom(self.rest_to_makeup@, k);
            let i = choose|i: int|
                0 <= i < self.rest_to_makeup@.len() && #[trigger] self.rest_to_makeup@[i].0 == k;
            lemma_kv_map_at(self.rest_to_makeup@, i);
        }
    }

    /// Moves a single-occurrence record whose start date is a matched rest
    /// day: a copy shifted onto the make-up date is appended; other records
    /// stay as they are.
    fn handle_single_occurrence_course(&self, courses: &mut Vec<Course>, index: usize)
        requires
            self.wf(),
            index < old(courses)@.len(),
            old(courses)@[index as int]@.start_time.time_ok(),
            old(courses)@[index as int]@.end_time.time_ok(),
        ensures
            ({
                let c = old(courses)@[index as int]@;
                if self.map_view().dom().contains(c.start_time.local_day()) {
                    final(courses)@.len() == old(courses)@.len() + 1 && final(courses)@.drop_last()
                        == old(courses)@ && single_shift_rel(*self, c, final(courses)@.last()@)
                } else {
                    final(courses)@ == old(courses)@
                }
            }),
    {
        let course = &courses[index];
        let date = course.start_time.date_naive();
        match self.makeup_for(date) {
            Some(makeup_date) => {
                proof {
                    self.lemma_map_ranges();
                }
                let diff_days = makeup_date.day - date.day;
                let mut moved = courses[index].clone();
                moved.start_time = courses[index].start_time.plus_days(diff_days);
                moved.end_time = courses[index].end_time.plus_days(diff_days);
                moved.note = Some(makeup_note(&courses[index].note, date.day));
                moved.raw_week = Some(makeup_raw_week(date.day, makeup_date.day));
                courses.push(moved);
                proof {
                    assert(final(courses)@.drop_last() =~= old(courses)@);
                }
            },
            None => {},
        }
    }

    /// Applies the calendar to a course list in place. Each recurring course
    /// gets its collision weeks recorded as off-weeks, and one duplicate per
    /// matched collision week is appended, shifted onto the make-up date.
    /// Every other record is retained unmodified; when its start date is a
    /// matched rest day, a copy shifted onto the make-up date is appended.
    #[verifier::rlimit(100)]
    pub fn apply_to_courses(&self, courses: &mut Vec<Course>, semester: &Semester)
        requires
            self.wf(),
            semester.start_date.time_ok(),
            forall|i: int|
                0 <= i < old(courses)@.len() ==> (#[trigger] old(
                    courses,
                )@[i]@).start_time.time_ok() && old(courses)@[i]@.end_time.time_ok(),
        ensures
            final(courses)@.len() == old(courses)@.len() + appended_count(
                *self,
                *semester,
                course_views(old(courses)@),
            ),
            forall|i: int|
                0 <= i < old(courses)@.len() ==> #[trigger] final(courses)@[i]@ == reconciled_view(
                    *self,
                    *semester,
                    old(courses)@[i]@,
                ),
            forall|j: int|
                old(courses)@.len() <= j < final(courses)@.len() ==> appended_ok(
                    *self,
                    *semester,
                    course_views(old(courses)@),
                    #[trigger] final(courses)@[j]@,
                ),
    {
        let ghost oldviews = course_views(old(courses)@);
        let len = courses.len();
        proof {
            assert(oldviews.skip(0) =~= oldviews);
        }
        let mut i: usize = 0;
        while i < len
            invariant
                0 <= i <= len,
                len == oldviews.len(),
                self.wf(),
                semester.start_date.time_ok(),
                oldviews == course_views(old(courses)@),
                courses@.len() >= len,
                forall|k: int|
                    0 <= k < len ==> (#[trigger] oldviews[k]).start_time.time_ok()
                        && oldviews[k].end_time.time_ok(),
                forall|k: int| i <= k < len ==> #[trigger] courses@[k]@ == oldviews[k],
                forall|k: int|
                    0 <= k < i ==> #[trigger] courses@[k]@ == reconciled_view(
                        *self,
                        *semester,
                        oldviews[k],
                    ),
                appended_count(*self, *semester, oldviews) == (courses@.len() - len)
                    + appended_count(*self, *semester, oldviews.skip(i as int)),
                forall|j: int|
                    len <= j < courses@.len() ==> appended_ok(
                        *self,
                        *semester,
                        oldviews,
                        #[trigger] courses@[j]@,
                    ),
            decreases len - i,
        {
            proof {
                assert(oldviews.skip(i as int)[0] == oldviews[i as int]);
                assert(oldviews.skip(i as int).skip(1) =~= oldviews.skip(i + 1));
            }
            let ghost pre = courses@;
            let is_recurring = match (&courses[i].weeks, courses[i].weekday) {
                (Some(w), Some(_)) => w.len() > 0,
                _ => false,
            };
            if !is_recurring {
                self.handle_single_occurrence_course(courses, i);
                proof {
                    let c = oldviews[i as int];
                    assert(!recurring_case(c));
                    assert forall|k2: int|
                        0 <= k2 < len && k2 != i implies courses@[k2] == pre[k2] by {
                        if self.map_view().dom().contains(c.start_time.local_day()) {
                            assert(courses@.drop_last()[k2] == courses@[k2]);
                        }
                    }
                    assert(courses@[i as int]@ == reconciled_view(*self, *semester, c));
                    assert forall|k2: int|
                        i + 1 <= k2 < len implies #[trigger] courses@[k2]@ == oldviews[k2] by {
                        assert(courses@[k2] == pre[k2]);
                        assert(pre[k2]@ == oldviews[k2]);
                    }
                    assert forall|k2: int|
                        0 <= k2 < i implies #[trigger] courses@[k2]@ == reconciled_view(
                        *self,
                        *semester,
                        oldviews[k2],
                    ) by {
                        assert(courses@[k2] == pre[k2]);
                        assert(pre[k2]@ == reconciled_view(*self, *semester, oldviews[k2]));
                    }
                    if self.map_view().dom().contains(c.start_time.local_day()) {
                        assert(courses@.last()@ == courses@[courses@.len() - 1]@);
                        assert(appended_ok(*self, *semester, oldviews, courses@.last()@)) by {
                            assert(single_shift_rel(*self, c, courses@.last()@));
                            assert(!recurring_case(c));
                        }
                        assert forall|j: int|
                            len <= j < courses@.len() implies appended_ok(
                            *self,
                            *semester,
                            oldviews,
                            #[trigger] courses@[j]@,
                        ) by {
                            if j < courses@.len() - 1 {
                                assert(courses@[j] == courses@.drop_last()[j]);
                            }
                        }
                    }
                }
            } else {
                proof {
                    assert(courses@[i as int]@ == oldviews[i as int]);
                }
                let weeks = crate::types::copy_vec(courses[i].weeks.as_ref().unwrap());
                let wd = courses[i].weekday.unwrap();
                let first = weeks[0];
                let original_start = courses[i].start_time;
                let original_end = courses[i].end_time;
                let mut off_weeks: Vec<u32> = Vec::new();
                let mut clones: Vec<Course> = Vec::new();
                let ghost cview = oldviews[i as int];
                proof {
                    assert(weeks@ == cview.weeks.unwrap());
                    assert(wd == cview.weekday.unwrap());
                }
                let mut k: usize = 0;
                while k < weeks.len()
                    invariant
                        0 <= k <= weeks@.len(),
                        self.wf(),
                        semester.start_date.time_ok(),
                        courses@ == pre,
                        i < courses@.len(),
                        courses@[i as int]@ == cview,
                        recurring_case(cview),
                        weeks@ == cview.weeks.unwrap(),
                        wd == cview.weekday.unwrap(),
                        first == weeks@[0],
                        original_start == cview.start_time,
                        original_end == cview.end_time,
                        original_start.time_ok(),
                        original_end.time_ok(),
                        off_weeks@ == collision_weeks_prefix(*self, *semester, cview, k as int),
                        clones@.len() == matched_weeks_prefix(*self, *semester, cview, k as int).len(),
                        forall|c: int|
                            0 <= c < clones@.len() ==> (exists|wi: int|
                                0 <= wi < k && self.map_view().dom().contains(
                                    occurrence_day(*semester, #[trigger] weeks@[wi], wd),
                                ) && makeup_clone_rel(
                                    *self,
                                    *semester,
                                    cview,
                                    weeks@[wi],
                                    #[trigger] clones@[c]@,
                                )),
                    decreases weeks@.len() - k,
                {
                    let wk = weeks[k];
                    let ghost clones0 = clones@;
                    let od = occurrence_date_for(semester, wk, wd);
                    proof {
                        let sub = weeks@.subrange(0, k + 1);
                        assert(sub.drop_last() =~= weeks@.subrange(0, k as int));
                        assert(sub.last() == weeks@[k as int]);
                        reveal(Seq::filter);
                        self.lemma_matching_contained();
                    }
                    if self.is_rest_day(od) {
                        match self.makeup_for(od) {
                            Some(md) => {
                                proof {
                                    self.lemma_map_ranges();
                                }
                                let occurrence_start = original_start.plus_weeks(
                                    wk as i64 - first as i64,
                                );
                                let occurrence_end = original_end.plus_weeks(
                                    wk as i64 - first as i64,
                                );
                                let clone = create_makeup_course(
                                    &courses[i],
                                    occurrence_start,
                                    occurrence_end,
                                    od,
                                    md,
                                );
                                clones.push(clone);
                                proof {
                                    assert(clones@ == clones0.push(clone));
                                    assert(makeup_clone_rel(
                                        *self,
                                        *semester,
                                        cview,
                                        weeks@[k as int],
                                        clone@,
                                    ));
                                }
                            },
                            None => {},
                        }
                        off_weeks.push(wk);
                    }
                    proof {
                        assert forall|c: int|
                            0 <= c < clones@.len() implies (exists|wi: int|
                            0 <= wi < k + 1 && self.map_view().dom().contains(
                                occurrence_day(*semester, #[trigger] weeks@[wi], wd),
                            ) && makeup_clone_rel(
                                *self,
                                *semester,
                                cview,
                                weeks@[wi],
                                #[trigger] clones@[c]@,
                            )) by {
                            if c < clones0.len() {
                                assert(clones@[c] == clones0[c]);
                                let wi = choose|wi: int|
                                    0 <= wi < k && self.map_view().dom().contains(
                                        occurrence_day(*semester, #[trigger] weeks@[wi], wd),
                                    ) && makeup_clone_rel(
                                        *self,
                                        *semester,
                                        cview,
                                        weeks@[wi],
                                        clones0[c]@,
                                    );
                                assert(0 <= wi < k + 1);
                            } else {
                                assert(c == clones0.len() && clones@[c]@ == clones@[c]@);
                            }
                        }
                    }
                    k = k + 1;
                }
                proof {
                    assert(weeks@.subrange(0, weeks@.len() as int) =~= weeks@);
                    assert(off_weeks@ == collision_weeks(*self, *semester, cview));
                    assert(clones@.len() == matched_weeks(*self, *semester, cview).len());
                }
                let mut updated = courses[i].clone();
                updated.off_weeks = if off_weeks.len() > 0 {
                    Some(off_weeks)
                } else {
                    None
                };
                courses.set(i, updated);
                let ghost mid = courses@;
                let ghost clone_views = clones@;
                courses.append(&mut clones);
                proof {
                    assert(courses@[i as int]@ == reconciled_view(*self, *semester, cview));
                    assert forall|k2: int|
                        0 <= k2 < len && k2 != i implies courses@[k2] == pre[k2] by {
                        assert(mid[k2] == pre[k2]);
                        assert(courses@[k2] == mid[k2]);
                    }
                    assert forall|k2: int|
                        i + 1 <= k2 < len implies #[trigger] courses@[k2]@ == oldviews[k2] by {
                        assert(courses@[k2] == pre[k2]);
                        assert(pre[k2]@ == oldviews[k2]);
                    }
                    assert forall|k2: int|
                        0 <= k2 < i implies #[trigger] courses@[k2]@ == reconciled_view(
                        *self,
                        *semester,
                        oldviews[k2],
                    ) by {
                        assert(courses@[k2] == pre[k2]);
                        assert(pre[k2]@ == reconciled_view(*self, *semester, oldviews[k2]));
                    }
                    assert(courses@.len() == mid.len() + clone_views.len());
                    assert forall|j: int|
                        len <= j < courses@.len() implies appended_ok(
                        *self,
                        *semester,
                        oldviews,
                        #[trigger] courses@[j]@,
                    ) by {
                        if j < mid.len() {
                            assert(courses@[j] == mid[j]);
                            assert(mid[j] == pre[j]);
                        } else {
                            assert(courses@[j] == clone_views[j - mid.len()]);
                            let c = clone_views[j - mid.len()]@;
                            let wi = choose|wi: int|
                                0 <= wi < weeks@.len() && self.map_view().dom().contains(
                                    occurrence_day(*semester, #[trigger] weeks@[wi], wd),
                                ) && makeup_clone_rel(*self, *semester, cview, weeks@[wi], c);
                            assert(0 <= i < oldviews.len() && oldviews[i as int] == cview);
                        }
                    }
                }
            }
            i = i + 1;
        }
        proof {
            assert(oldviews.skip(len as int) =~= Seq::<CourseView>::empty());
        }
    }

    /// Applies the calendar to a course response in place.
    pub fn apply_to_response(&self, response: &mut CourseResponse)
        requires
            self.wf(),
            old(response).semester.start_date.time_ok(),
            forall|i: int|
                0 <= i < old(response).courses@.len() ==> (#[trigger] old(
                    response,
                ).courses@[i]@).start_time.time_ok() && old(response).courses@[i]@.end_time.time_ok(),
        ensures
            final(response).semester == old(response).semester,
            final(response).generated_at == old(response).generated_at,
            final(response).courses@.len() == old(response).courses@.len() + appended_count(
                *self,
                old(response).semester,
                course_views(old(response).courses@),
            ),
            forall|i: int|
                0 <= i < old(response).courses@.len() ==> #[trigger] final(response).courses@[i]@
                    == reconciled_view(
                    *self,
                    old(response).semester,
                    old(response).courses@[i]@,
                ),
            forall|j: int|
                old(response).courses@.len() <= j < final(response).courses@.len() ==> appended_ok(
                    *self,
                    old(response).semester,
                    course_views(old(response).courses@),
                    #[trigger] final(response).courses@[j]@,
                ),
    {
        let semester = response.semester;
        self.apply_to_courses(&mut response.courses, &semester);
    }
}

/// The collision weeks among the first `k` weeks of a recurring course.
pub open spec fn collision_weeks_prefix(
    cal: HolidayCalendar,
    sem: Semester,
    c: CourseView,
    k: int,
) -> Seq<u32> {
    c.weeks.unwrap().subrange(0, k).filter(
        |wk: u32| cal.rest_set().contains(occurrence_day(sem, wk, c.weekday.unwrap())),
    )
}

/// The matched collision weeks among the first `k` weeks of a recurring course.
pub open spec fn matched_weeks_prefix(
    cal: HolidayCalendar,
    sem: Semester,
    c: CourseView,
    k: int,
) -> Seq<u32> {
    c.weeks.unwrap().subrange(0, k).filter(
        |wk: u32| cal.map_view().dom().contains(occurrence_day(sem, wk, c.weekday.unwrap())),
    )
}

proof fn lemma_range_from_subset(sub: Seq<i64>, sup: Seq<i64>, lo: int, hi: int)
    requires
        forall|x: i64| #[trigger] sub.contains(x) ==> sup.contains(x),
        days_in_range(sup, lo, hi),
    ensures
        days_in_range(sub, lo, hi),
{
    assert forall|k: int| 0 <= k < sub.len() implies lo <= #[trigger] sub[k] <= hi by {
        assert(sub.contains(sub[k]));
        assert(sup.contains(sub[k]));
        let m = choose|m: int| 0 <= m < sup.len() && #[trigger] sup[m] == sub[k];
    }
}

/// After removing a window of dates, the pool holds exactly the dates outside
/// it, still sorted.
proof fn lemma_pool_facts(pool: Seq<i64>, newpool: Seq<i64>, below: Seq<i64>, above: Seq<i64>, lo: i64, hi: i64)
    requires
        sorted_strict(pool),
        lo <= hi,
        newpool == below + above,
        forall|x: i64| (#[trigger] below.contains(x)) <==> (pool.contains(x) && x < lo),
        forall|x: i64| (#[trigger] above.contains(x)) <==> (pool.contains(x) && x > hi),
        sorted_strict(below),
        sorted_strict(above),
    ensures
        sorted_strict(newpool),
        forall|x: i64| #[trigger] newpool.contains(x) <==> (pool.contains(x) && !(lo <= x <= hi)),
{
    assert forall|k: int| 0 < k < newpool.len() implies newpool[k - 1] < #[trigger] newpool[k] by {
        if k < below.len() {
            assert(newpool[k] == below[k] && newpool[k - 1] == below[k - 1]);
        } else if k > below.len() {
            assert(newpool[k] == above[k - below.len()] && newpool[k - 1] == above[k - 1
                - below.len()]);
        } else {
            assert(newpool[k] == above[0] && newpool[k - 1] == below[k - 1]);
            assert(below.contains(below[k - 1]));
            assert(above.contains(above[0]));
        }
    }
    assert forall|x: i64| #[trigger]
        newpool.contains(x) implies (pool.contains(x) && !(lo <= x <= hi)) by {
        let k = choose|k: int| 0 <= k < newpool.len() && #[trigger] newpool[k] == x;
        if k < below.len() {
            assert(below[k] == x);
            assert(below.contains(x));
        } else {
            assert(above[k - below.len()] == x);
            assert(above.contains(x));
        }
    }
    assert forall|x: i64| (pool.contains(x) && !(lo <= x <= hi)) implies #[trigger] newpool.contains(
        x,
    ) by {
        if x < lo {
            assert(below.contains(x));
            let k = choose|k: int| 0 <= k < below.len() && #[trigger] below[k] == x;
            assert(newpool[k] == x);
        } else {
            assert(above.contains(x));
            let k = choose|k: int| 0 <= k < above.len() && #[trigger] above[k] == x;
            assert(newpool[below.len() + k] == x);
        }
    }
}

proof fn lemma_count_none_zero(s: Seq<Option<i64>>)
    requires
        forall|k: int| 0 <= k < s.len() ==> (#[trigger] s[k]) is None,
    ensures
        count_some(s) == 0,
    decreases s.len(),
{
    if s.len() > 0 {
        lemma_count_none_zero(s.drop_last());
    }
}

} // verus!
