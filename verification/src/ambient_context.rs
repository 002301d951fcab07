//! Ambient adaptation: the companion's stance follows the user's activity.
//!
//! Deep coding asks for a focused assistant, immersive games for silence,
//! reading for warm company, and long inactivity for rest. The scene is
//! guessed from the foreground window title by plain substring matching
//! (known false positives: a document named "Game Plan" reads as a game), so
//! it only tunes politeness and is never a permission signal.
//!
//! Window titles are minimised before use or retention: cut to
//! [`MAX_WINDOW_TITLE_CHARS`] characters, URL-like and e-mail-like tokens
//! replaced by placeholders. Other identifying text (document names) may
//! remain.

use vstd::prelude::*;
use crate::cron::{lower, lower_char, split_words, to_lower_char, views, ws_words};
use crate::text::{chars_of, push_char, push_str, string_from_chars};

verus! {

broadcast use vstd::string::group_string_axioms;

/// The user's current activity scene.
#[derive(Debug, Clone, Copy, PartialEq, Eq, Structural)]
pub enum UserActivityScene {
    /// Deep coding or debugging (IDE, terminal, build output in front).
    DeepCoding,
    /// Immersive game or full-screen entertainment.
    ImmersiveGame,
    /// Reading or browsing (browser, PDF, knowledge base).
    ReadingAndBrowsing,
    /// Talking with the companion (its window has focus).
    DirectConversation,
    /// No input for a long time.
    Idle,
}

/// The companion's stance and depth of interaction.
#[derive(Debug, Clone, Copy, PartialEq, Eq, Structural)]
pub enum CompanionStance {
    /// Waits for instructions, keeps debugging skills ready, never interrupts.
    FocusAssistant,
    /// Silent: no pop-ups, only passive observation.
    SilentObserver,
    /// May start light greetings, break reminders, empathy.
    WarmCompanion,
    /// Low power: lower sampling, nightly consolidation.
    Resting,
}

/// Ambient adaptation settings.
#[derive(Debug, Clone, Copy, PartialEq, Eq)]
pub struct AmbientConfig {
    /// Silence, in milliseconds, after which the user counts as idle.
    pub idle_timeout_ms: i64,
    /// How long the game protection lasts, in milliseconds.
    pub game_protection_duration_ms: i64,
}

impl Default for AmbientConfig {
    fn default() -> (c: Self)
        ensures
            c.idle_timeout_ms == 600_000,
            c.game_protection_duration_ms == 1_800_000,
    {
        AmbientConfig { idle_timeout_ms: 600_000, game_protection_duration_ms: 1_800_000 }
    }
}

/// Most characters of a window title that are kept.
pub const MAX_WINDOW_TITLE_CHARS: usize = 256;

/// Placeholder for a URL-like token.
pub const URL_PLACEHOLDER: &'static str = "[url]";

/// Placeholder for an e-mail-like token.
pub const EMAIL_PLACEHOLDER: &'static str = "[email]";

/// An ambient snapshot.
#[derive(Debug, Clone, PartialEq)]
pub struct AmbientSnapshot {
    /// Scene.
    pub scene: UserActivityScene,
    /// Stance.
    pub stance: CompanionStance,
    /// The minimised foreground window title, if any.
    pub active_window_title: Option<String>,
    /// Time of the last user interaction, in milliseconds.
    pub last_interaction_ms: i64,
    /// Why this stance.
    pub stance_reason: String,
}

// ---------------------------------------------------------------------------
// Title minimisation
// ---------------------------------------------------------------------------

/// At most the first `MAX_WINDOW_TITLE_CHARS` characters.
pub open spec fn bounded(s: Seq<char>) -> Seq<char> {
    if s.len() <= MAX_WINDOW_TITLE_CHARS {
        s
    } else {
        s.take(MAX_WINDOW_TITLE_CHARS as int)
    }
}

/// Whether `s` begins with `p`.
pub open spec fn starts_with(s: Seq<char>, p: Seq<char>) -> bool {
    p.len() <= s.len() && s.take(p.len() as int) == p
}

/// A URL-like token (already lower-cased).
pub open spec fn is_url_token(lower: Seq<char>) -> bool {
    starts_with(lower, "http://"@) || starts_with(lower, "https://"@) || starts_with(lower, "www."@)
        || starts_with(lower, "ftp://"@)
}

/// Index of the first `c` in `s`, or -1.
pub open spec fn first_index(s: Seq<char>, c: char) -> int
    decreases s.len(),
{
    if s.len() == 0 {
        -1
    } else if s.last() == c && first_index(s.drop_last(), c) == -1 {
        s.len() - 1
    } else {
        first_index(s.drop_last(), c)
    }
}

/// An e-mail-like token (already lower-cased): a non-empty part after the
/// first `@` that contains a dot and no space.
pub open spec fn is_email_token(lower: Seq<char>) -> bool {
    let at = first_index(lower, '@');
    let domain = lower.skip(at + 1);
    at >= 0 && domain.len() > 0 && domain.contains('.') && !domain.contains(' ')
}

/// A token after minimisation.
pub open spec fn minimised_token(t: Seq<char>) -> Seq<char> {
    if is_url_token(lower(t)) {
        URL_PLACEHOLDER@
    } else if is_email_token(lower(t)) {
        EMAIL_PLACEHOLDER@
    } else {
        t
    }
}

/// Tokens joined with single spaces.
pub open spec fn join_spaces(ws: Seq<Seq<char>>) -> Seq<char>
    decreases ws.len(),
{
    if ws.len() == 0 {
        seq![]
    } else if ws.len() == 1 {
        ws[0]
    } else {
        join_spaces(ws.drop_last()) + seq![' '] + ws.last()
    }
}

/// The minimised form of a window title: cut, split at whitespace, URL and
/// e-mail tokens replaced, rejoined with single spaces.
pub open spec fn minimised_title(title: Seq<char>) -> Seq<char> {
    join_spaces(ws_words(bounded(title)).map_values(|t: Seq<char>| minimised_token(t)))
}

fn starts_with_str(s: &Vec<char>, p: &str) -> (b: bool)
    ensures
        b == starts_with(s@, p@),
{
    let pc = chars_of(p);
    if pc.len() > s.len() {
        return false;
    }
    let mut i: usize = 0;
    while i < pc.len()
        invariant
            pc@ == p@,
            pc@.len() <= s@.len(),
            i <= pc@.len(),
            forall|j: int| 0 <= j < i ==> s@[j] == pc@[j],
        decreases pc@.len() - i,
    {
        if s[i] != pc[i] {
            assert(s@.take(p@.len() as int)[i as int] != p@[i as int]);
            return false;
        }
        i = i + 1;
    }
    assert(s@.take(p@.len() as int) =~= p@);
    true
}

fn lower_chars(s: &Vec<char>) -> (r: Vec<char>)
    ensures
        r@ == lower(s@),
{
    let mut r: Vec<char> = Vec::new();
    let mut i: usize = 0;
    while i < s.len()
        invariant
            i <= s@.len(),
            r@ == lower(s@).take(i as int),
        decreases s@.len() - i,
    {
        r.push(to_lower_char(s[i]));
        assert(lower(s@).take(i as int + 1) =~= lower(s@).take(i as int).push(lower_char(s@[i as int])));
        i = i + 1;
    }
    assert(lower(s@).take(i as int) =~= lower(s@));
    r
}

proof fn lemma_first_index(s: Seq<char>, c: char)
    ensures
        -1 <= first_index(s, c) < s.len(),
        first_index(s, c) >= 0 ==> s[first_index(s, c)] == c,
        forall|j: int| 0 <= j < s.len() && (first_index(s, c) == -1 || j < first_index(s, c)) ==> s[j] != c,
    decreases s.len(),
{
    if s.len() > 0 {
        lemma_first_index(s.drop_last(), c);
        assert forall|j: int| 0 <= j < s.len() && (first_index(s, c) == -1 || j < first_index(s, c)) implies s[j]
            != c by {
            if j < s.len() - 1 {
                assert(s.drop_last()[j] == s[j]);
            }
        }
        if first_index(s, c) >= 0 && first_index(s, c) < s.len() - 1 {
            assert(s.drop_last()[first_index(s, c)] == s[first_index(s, c)]);
        }
    }
}

fn seq_has(s: &Vec<char>, from: usize, c: char) -> (b: bool)
    requires
        from <= s@.len(),
    ensures
        b == s@.skip(from as int).contains(c),
{
    let mut i: usize = from;
    while i < s.len()
        invariant
            from <= i <= s@.len(),
            forall|j: int| from <= j < i ==> s@[j] != c,
        decreases s@.len() - i,
    {
        if s[i] == c {
            assert(s@.skip(from as int)[i - from] == c);
            return true;
        }
        i = i + 1;
    }
    assert forall|k: int| 0 <= k < s@.skip(from as int).len() implies s@.skip(from as int)[k] != c by {
        assert(s@.skip(from as int)[k] == s@[k + from]);
    }
    false
}

fn is_email_like(l: &Vec<char>) -> (b: bool)
    ensures
        b == is_email_token(l@),
{
    proof {
        lemma_first_index(l@, '@');
    }
    let mut i: usize = 0;
    while i < l.len() && l[i] != '@'
        invariant
            i <= l@.len(),
            forall|j: int| 0 <= j < i ==> l@[j] != '@',
        decreases l@.len() - i,
    {
        i = i + 1;
    }
    if i == l.len() {
        assert(first_index(l@, '@') == -1) by {
            if first_index(l@, '@') >= 0 {
                assert(l@[first_index(l@, '@')] == '@');
            }
        }
        return false;
    }
    assert(first_index(l@, '@') == i as int) by {
        let f = first_index(l@, '@');
        if f == -1 || (f as int) > (i as int) {
            assert(l@[i as int] == '@');
        } else if f < i {
            assert(l@[f] == '@');
        }
    }
    let start = i + 1;
    start < l.len() && seq_has(l, start, '.') && !seq_has(l, start, ' ')
}

fn minimise_token(t: &Vec<char>) -> (r: Vec<char>)
    ensures
        r@ == minimised_token(t@),
{
    let l = lower_chars(t);
    if starts_with_str(&l, "http://") || starts_with_str(&l, "https://") || starts_with_str(&l, "www.")
        || starts_with_str(&l, "ftp://") {
        return chars_of(URL_PLACEHOLDER);
    }
    if is_email_like(&l) {
        return chars_of(EMAIL_PLACEHOLDER);
    }
    let mut r: Vec<char> = Vec::new();
    let mut i: usize = 0;
    while i < t.len()
        invariant
            i <= t@.len(),
            r@ == t@.take(i as int),
        decreases t@.len() - i,
    {
        r.push(t[i]);
        assert(t@.take(i as int + 1) =~= t@.take(i as int).push(t@[i as int]));
        i = i + 1;
    }
    assert(t@.take(i as int) =~= t@);
    r
}

/// Minimises a window title: the first [`MAX_WINDOW_TITLE_CHARS`]
/// characters, split at whitespace, with URL-like tokens (`http://`,
/// `https://`, `www.`, `ftp://`, any case) replaced by `[url]` and tokens
/// with a dotted, space-free part after their first `@` replaced by
/// `[email]`, rejoined with single spaces.
pub fn sanitize_window_title(title: &str) -> (s: String)
    ensures
        s@ == minimised_title(title@),
{
    let all = chars_of(title);
    let n: usize = if all.len() <= MAX_WINDOW_TITLE_CHARS {
        all.len()
    } else {
        MAX_WINDOW_TITLE_CHARS
    };
    let mut cut: Vec<char> = Vec::new();
    let mut i: usize = 0;
    while i < n
        invariant
            n <= all@.len(),
            all@ == title@,
            n == bounded(title@).len(),
            i <= n,
            cut@ == title@.take(i as int),
        decreases n - i,
    {
        cut.push(all[i]);
        assert(title@.take(i as int + 1) =~= title@.take(i as int).push(title@[i as int]));
        i = i + 1;
    }
    assert(cut@ =~= bounded(title@));
    let words = split_words(cut.as_slice());
    let ghost ws = views(words@);
    let ghost mapped = ws.map_values(|t: Seq<char>| minimised_token(t));
    let mut s = String::new();
    let mut k: usize = 0;
    while k < words.len()
        invariant
            k <= words@.len(),
            ws == views(words@),
            ws == ws_words(bounded(title@)),
            mapped == ws.map_values(|t: Seq<char>| minimised_token(t)),
            s@ == join_spaces(mapped.take(k as int)),
        decreases words@.len() - k,
    {
        assert(mapped.take(k as int + 1).drop_last() =~= mapped.take(k as int));
        if k > 0 {
            push_char(&mut s, ' ');
        } else {
            assert(mapped.take(0) =~= Seq::<Seq<char>>::empty());
        }
        let tok = minimise_token(&words[k]);
        let ts = string_from_chars(tok.as_slice());
        push_str(&mut s, ts.as_str());
        k = k + 1;
    }
    assert(mapped.take(k as int) =~= mapped);
    s
}

// ---------------------------------------------------------------------------
// Scene inference
// ---------------------------------------------------------------------------

/// The Unicode lower-case form of `s` (`str::to_lowercase`).
pub uninterp spec fn unicode_lowercase(s: Seq<char>) -> Seq<char>;

/// Lower-cases a string.
///
/// Trusted: calls `str::to_lowercase`, which std documents as returning the
/// lowercase equivalent of the string under the Unicode `Lowercase`
/// property; the result is a function of the input alone and is stated here
/// only through the name [`unicode_lowercase`].
#[verifier::external_body]
fn to_lowercase(s: &str) -> (r: String)
    ensures
        r@ == unicode_lowercase(s@),
{
    s.to_lowercase()
}

/// Whether `needle` occurs in `hay`.
pub open spec fn has_sub(hay: Seq<char>, needle: Seq<char>) -> bool {
    exists|i: int| 0 <= i && i + needle.len() <= hay.len() && #[trigger] hay.subrange(i, i + needle.len()) == needle
}

pub(crate) fn contains_str(hay: &Vec<char>, needle: &str) -> (b: bool)
    ensures
        b == has_sub(hay@, needle@),
{
    let nc = chars_of(needle);
    let m = nc.len();
    if m > hay.len() {
        assert forall|i: int| 0 <= i && i + needle@.len() <= hay@.len() implies #[trigger] hay@.subrange(
            i,
            i + needle@.len(),
        ) != needle@ by {}
        return false;
    }
    if m == 0 {
        assert(hay@.subrange(0int, 0int + needle@.len()) =~= needle@);
        return true;
    }
    let last = hay.len() - m;
    let mut i: usize = 0;
    while i <= last
        invariant
            hay@.len() <= usize::MAX,
            m > 0,
            nc@ == needle@,
            m == nc@.len(),
            m <= hay@.len(),
            last == hay@.len() - m,
            i <= last + 1,
            forall|k: int| 0 <= k < i ==> #[trigger] hay@.subrange(k, k + m) != needle@,
        decreases last + 1 - i,
    {
        let mut j: usize = 0;
        let mut same = true;
        while j < m && same
            invariant
                hay@.len() <= usize::MAX,
                nc@ == needle@,
                m == nc@.len(),
                i + m <= hay@.len(),
                j <= m,
                forall|q: int| 0 <= q < j ==> hay@[i + q] == nc@[q],
                !same ==> j < m && hay@[i + j] != nc@[j as int],
            decreases m - j + if same { 1int } else { 0int },
        {
            if hay[i + j] == nc[j] {
                j = j + 1;
            } else {
                same = false;
            }
        }
        if same {
            assert(hay@.subrange(i as int, i as int + m) =~= needle@);
            return true;
        }
        assert(hay@.subrange(i as int, i as int + m)[j as int] != needle@[j as int]);
        i = i + 1;
    }
    assert forall|k: int| 0 <= k && k + needle@.len() <= hay@.len() implies #[trigger] hay@.subrange(k, k + needle@.len())
        != needle@ by {
        assert(k < i);
    }
    false
}

/// The scene read from a lower-cased title: games first, then coding, then
/// reading, then the companion itself; anything else counts as reading.
pub open spec fn scene_of_lowercase(l: Seq<char>) -> UserActivityScene {
    if has_sub(l, "game"@) || has_sub(l, "steam"@) || has_sub(l, "genshin"@) || has_sub(l, "wuthering"@)
        || has_sub(l, "elden ring"@) || has_sub(l, "cyberpunk"@) {
        UserActivityScene::ImmersiveGame
    } else if has_sub(l, "visual studio"@) || has_sub(l, "vscode"@) || has_sub(l, "code"@) || has_sub(l, "cargo"@)
        || has_sub(l, "terminal"@) || has_sub(l, "powershell"@) || has_sub(l, "nvim"@) || has_sub(l, ".rs"@) {
        UserActivityScene::DeepCoding
    } else if has_sub(l, "documentation"@) || has_sub(l, "docs.rs"@) || has_sub(l, "chrome"@) || has_sub(l, "edge"@)
        || has_sub(l, "firefox"@) || has_sub(l, "pdf"@) || has_sub(l, "notion"@) {
        UserActivityScene::ReadingAndBrowsing
    } else if has_sub(l, "apeireth"@) || has_sub(l, "companion"@) {
        UserActivityScene::DirectConversation
    } else {
        UserActivityScene::ReadingAndBrowsing
    }
}

/// A lower-cased title naming a game.
pub open spec fn names_game(l: Seq<char>) -> bool {
    has_sub(l, "game"@) || has_sub(l, "steam"@) || has_sub(l, "genshin"@) || has_sub(l, "wuthering"@) || has_sub(
        l,
        "elden ring"@,
    ) || has_sub(l, "cyberpunk"@)
}

/// A lower-cased title naming a coding tool.
pub open spec fn names_coding(l: Seq<char>) -> bool {
    has_sub(l, "visual studio"@) || has_sub(l, "vscode"@) || has_sub(l, "code"@) || has_sub(l, "cargo"@) || has_sub(
        l,
        "terminal"@,
    ) || has_sub(l, "powershell"@) || has_sub(l, "nvim"@) || has_sub(l, ".rs"@)
}

/// A lower-cased title naming documentation, a browser or a reader.
pub open spec fn names_reading(l: Seq<char>) -> bool {
    has_sub(l, "documentation"@) || has_sub(l, "docs.rs"@) || has_sub(l, "chrome"@) || has_sub(l, "edge"@) || has_sub(
        l,
        "firefox"@,
    ) || has_sub(l, "pdf"@) || has_sub(l, "notion"@)
}

/// The keyword table of scene inference: a game keyword means an immersive
/// game; otherwise every coding keyword (visual studio, vscode, code,
/// cargo, terminal, powershell, nvim, .rs) means deep coding; otherwise a
/// documentation or browser keyword means reading; otherwise naming the
/// companion means a direct conversation; anything else counts as reading.
pub proof fn scene_keyword_table(l: Seq<char>)
    ensures
        names_game(l) ==> scene_of_lowercase(l) == UserActivityScene::ImmersiveGame,
        !names_game(l) && has_sub(l, "visual studio"@) ==> scene_of_lowercase(l) == UserActivityScene::DeepCoding,
        !names_game(l) && has_sub(l, "vscode"@) ==> scene_of_lowercase(l) == UserActivityScene::DeepCoding,
        !names_game(l) && has_sub(l, "code"@) ==> scene_of_lowercase(l) == UserActivityScene::DeepCoding,
        !names_game(l) && has_sub(l, "cargo"@) ==> scene_of_lowercase(l) == UserActivityScene::DeepCoding,
        !names_game(l) && has_sub(l, "terminal"@) ==> scene_of_lowercase(l) == UserActivityScene::DeepCoding,
        !names_game(l) && has_sub(l, "powershell"@) ==> scene_of_lowercase(l) == UserActivityScene::DeepCoding,
        !names_game(l) && has_sub(l, "nvim"@) ==> scene_of_lowercase(l) == UserActivityScene::DeepCoding,
        !names_game(l) && has_sub(l, ".rs"@) ==> scene_of_lowercase(l) == UserActivityScene::DeepCoding,
        !names_game(l) && !names_coding(l) && names_reading(l) ==> scene_of_lowercase(l)
            == UserActivityScene::ReadingAndBrowsing,
        !names_game(l) && !names_coding(l) && !names_reading(l) && (has_sub(l, "apeireth"@) || has_sub(
            l,
            "companion"@,
        )) ==> scene_of_lowercase(l) == UserActivityScene::DirectConversation,
        !names_game(l) && !names_coding(l) && !names_reading(l) && !has_sub(l, "apeireth"@) && !has_sub(
            l,
            "companion"@,
        ) ==> scene_of_lowercase(l) == UserActivityScene::ReadingAndBrowsing,
{
}

/// The scene of an already lower-cased title, by plain substring matching.
pub fn scene_from_lowercase(lowercase_title: &str) -> (s: UserActivityScene)
    ensures
        s == scene_of_lowercase(lowercase_title@),
        names_game(lowercase_title@) ==> s == UserActivityScene::ImmersiveGame,
        !names_game(lowercase_title@) && names_coding(lowercase_title@) ==> s == UserActivityScene::DeepCoding,
{
    proof {
        scene_keyword_table(lowercase_title@);
    }
    let l = chars_of(lowercase_title);
    if contains_str(&l, "game") || contains_str(&l, "steam") || contains_str(&l, "genshin") || contains_str(
        &l,
        "wuthering",
    ) || contains_str(&l, "elden ring") || contains_str(&l, "cyberpunk") {
        UserActivityScene::ImmersiveGame
    } else if contains_str(&l, "visual studio") || contains_str(&l, "vscode") || contains_str(&l, "code")
        || contains_str(&l, "cargo") || contains_str(&l, "terminal") || contains_str(&l, "powershell")
        || contains_str(&l, "nvim") || contains_str(&l, ".rs") {
        UserActivityScene::DeepCoding
    } else if contains_str(&l, "documentation") || contains_str(&l, "docs.rs") || contains_str(&l, "chrome")
        || contains_str(&l, "edge") || contains_str(&l, "firefox") || contains_str(&l, "pdf") || contains_str(
        &l,
        "notion",
    ) {
        UserActivityScene::ReadingAndBrowsing
    } else if contains_str(&l, "apeireth") || contains_str(&l, "companion") {
        UserActivityScene::DirectConversation
    } else {
        UserActivityScene::ReadingAndBrowsing
    }
}

// ---------------------------------------------------------------------------
// The machine
// ---------------------------------------------------------------------------

/// The stance a scene calls for.
pub open spec fn stance_for(s: UserActivityScene) -> CompanionStance {
    match s {
        UserActivityScene::DeepCoding => CompanionStance::FocusAssistant,
        UserActivityScene::ImmersiveGame => CompanionStance::SilentObserver,
        UserActivityScene::ReadingAndBrowsing => CompanionStance::WarmCompanion,
        UserActivityScene::DirectConversation => CompanionStance::WarmCompanion,
        UserActivityScene::Idle => CompanionStance::Resting,
    }
}

/// The stated reason for a scene's stance.
pub open spec fn reason_for(s: UserActivityScene) -> Seq<char> {
    match s {
        UserActivityScene::DeepCoding => "检测到深度开发环境，保持静候并就绪技能辅助"@,
        UserActivityScene::ImmersiveGame => "检测到沉浸游戏环境，开启防打扰绝对静默"@,
        UserActivityScene::ReadingAndBrowsing => "检测到浏览/阅读状态，开启适度温暖关怀"@,
        UserActivityScene::DirectConversation => "当前处于直接互动焦点，提供即时响应"@,
        UserActivityScene::Idle => "长时间无交互，进入低功耗休眠与梦境整理"@,
    }
}

/// `a - b`, saturating at the bounds of `i64`.
pub open spec fn sat_sub_i64(a: i64, b: i64) -> int {
    if a - b > i64::MAX {
        i64::MAX as int
    } else if a - b < i64::MIN {
        i64::MIN as int
    } else {
        a - b
    }
}

/// Ambient adaptation state machine.
#[derive(Debug, Clone)]
pub struct AmbientContextMachine {
    config: AmbientConfig,
    current_scene: UserActivityScene,
    current_stance: CompanionStance,
    last_interaction_ms: i64,
    last_window_title: Option<String>,
}

impl AmbientContextMachine {
    /// The configuration.
    pub closed spec fn spec_config(&self) -> AmbientConfig {
        self.config
    }

    /// The current scene.
    pub closed spec fn scene(&self) -> UserActivityScene {
        self.current_scene
    }

    /// The current stance.
    pub closed spec fn stance(&self) -> CompanionStance {
        self.current_stance
    }

    /// Time of the last interaction.
    pub closed spec fn last_interaction(&self) -> i64 {
        self.last_interaction_ms
    }

    /// The retained (minimised) window title.
    pub closed spec fn title(&self) -> Option<Seq<char>> {
        match self.last_window_title {
            Some(t) => Some(t@),
            None => None,
        }
    }

    /// A machine in conversation with the user, the last interaction at
    /// `now_ms` (the caller's clock), no window title retained.
    pub fn new(config: AmbientConfig, now_ms: i64) -> (m: Self)
        ensures
            m.spec_config() == config,
            m.scene() == UserActivityScene::DirectConversation,
            m.stance() == CompanionStance::WarmCompanion,
            m.last_interaction() == now_ms,
            m.title() is None,
    {
        AmbientContextMachine {
            config,
            current_scene: UserActivityScene::DirectConversation,
            current_stance: CompanionStance::WarmCompanion,
            last_interaction_ms: now_ms,
            last_window_title: None,
        }
    }

    /// Guesses the scene from a window title: its first
    /// [`MAX_WINDOW_TITLE_CHARS`] characters, lower-cased, matched against
    /// brand and tool names.
    pub fn infer_scene_from_window(window_title: &str) -> (s: UserActivityScene)
        ensures
            s == scene_of_lowercase(unicode_lowercase(bounded(window_title@))),
            names_game(unicode_lowercase(bounded(window_title@))) ==> s == UserActivityScene::ImmersiveGame,
            !names_game(unicode_lowercase(bounded(window_title@))) && names_coding(
                unicode_lowercase(bounded(window_title@)),
            ) ==> s == UserActivityScene::DeepCoding,
    {
        proof {
            scene_keyword_table(unicode_lowercase(bounded(window_title@)));
        }
        let all = chars_of(window_title);
        let n: usize = if all.len() <= MAX_WINDOW_TITLE_CHARS {
            all.len()
        } else {
            MAX_WINDOW_TITLE_CHARS
        };
        let mut cut: Vec<char> = Vec::new();
        let mut i: usize = 0;
        while i < n
            invariant
                n <= all@.len(),
                all@ == window_title@,
                n == bounded(window_title@).len(),
                i <= n,
                cut@ == window_title@.take(i as int),
            decreases n - i,
        {
            cut.push(all[i]);
            assert(window_title@.take(i as int + 1) =~= window_title@.take(i as int).push(window_title@[i as int]));
            i = i + 1;
        }
        assert(cut@ =~= bounded(window_title@));
        let bounded_title = string_from_chars(cut.as_slice());
        let lowered = to_lowercase(bounded_title.as_str());
        scene_from_lowercase(lowered.as_str())
    }

    /// Updates the ambient state: the title, when given, is minimised and
    /// decides the scene; without one, the user is idle once the idle timeout
    /// has passed since the last interaction, else the scene stays. The
    /// stance follows the scene; the minimised title is retained.
    pub fn update_environment(&mut self, window_title: Option<&str>, now_ms: i64) -> (snap: AmbientSnapshot)
        ensures
            final(self).spec_config() == old(self).spec_config(),
            final(self).last_interaction() == old(self).last_interaction(),
            snap.scene == match window_title {
                Some(t) => scene_of_lowercase(unicode_lowercase(bounded(minimised_title(t@)))),
                None => if sat_sub_i64(now_ms, old(self).last_interaction()) >= old(self).spec_config().idle_timeout_ms {
                    UserActivityScene::Idle
                } else {
                    old(self).scene()
                },
            },
            snap.stance == stance_for(snap.scene),
            snap.stance_reason@ == reason_for(snap.scene),
            snap.last_interaction_ms == old(self).last_interaction(),
            match window_title {
                Some(t) => snap.active_window_title matches Some(s) && s@ == minimised_title(t@)
                    && final(self).title() == Some(minimised_title(t@)),
                None => snap.active_window_title is None && final(self).title() is None,
            },
            final(self).scene() == snap.scene,
            final(self).stance() == snap.stance,
    {
        let sanitized: Option<String> = match window_title {
            Some(t) => Some(sanitize_window_title(t)),
            None => None,
        };
        let scene = match &sanitized {
            Some(title) => AmbientContextMachine::infer_scene_from_window(title.as_str()),
            None => {
                let diff: i128 = (now_ms as i128) - (self.last_interaction_ms as i128);
                let elapsed: i64 = if diff > i64::MAX as i128 {
                    i64::MAX
                } else if diff < i64::MIN as i128 {
                    i64::MIN
                } else {
                    diff as i64
                };
                if elapsed >= self.config.idle_timeout_ms {
                    UserActivityScene::Idle
                } else {
                    self.current_scene
                }
            },
        };
        let (stance, reason) = match scene {
            UserActivityScene::DeepCoding => (
                CompanionStance::FocusAssistant,
                String::from_str("检测到深度开发环境，保持静候并就绪技能辅助"),
            ),
            UserActivityScene::ImmersiveGame => (
                CompanionStance::SilentObserver,
                String::from_str("检测到沉浸游戏环境，开启防打扰绝对静默"),
            ),
            UserActivityScene::ReadingAndBrowsing => (
                CompanionStance::WarmCompanion,
                String::from_str("检测到浏览/阅读状态，开启适度温暖关怀"),
            ),
            UserActivityScene::DirectConversation => (
                CompanionStance::WarmCompanion,
                String::from_str("当前处于直接互动焦点，提供即时响应"),
            ),
            UserActivityScene::Idle => (CompanionStance::Resting, String::from_str("长时间无交互，进入低功耗休眠与梦境整理")),
        };
        self.current_scene = scene;
        self.current_stance = stance;
        let kept: Option<String> = match &sanitized {
            Some(t) => Some(t.clone()),
            None => None,
        };
        self.last_window_title = kept;
        AmbientSnapshot {
            scene,
            stance,
            active_window_title: sanitized,
            last_interaction_ms: self.last_interaction_ms,
            stance_reason: reason,
        }
    }

    /// Records a user interaction at `now_ms` (resets the idle clock).
    pub fn record_interaction(&mut self, now_ms: i64)
        ensures
            final(self).last_interaction() == now_ms,
            final(self).spec_config() == old(self).spec_config(),
            final(self).scene() == old(self).scene(),
            final(self).stance() == old(self).stance(),
            final(self).title() == old(self).title(),
    {
        self.last_interaction_ms = now_ms;
    }

    /// The current snapshot at `now_ms` (the caller's clock): the retained
    /// title is run through [`AmbientContextMachine::update_environment`] again.
    pub fn current_snapshot(&mut self, now_ms: i64) -> (snap: AmbientSnapshot)
        ensures
            final(self).spec_config() == old(self).spec_config(),
            final(self).last_interaction() == old(self).last_interaction(),
            snap.scene == match old(self).title() {
                Some(t) => scene_of_lowercase(unicode_lowercase(bounded(minimised_title(t)))),
                None => if sat_sub_i64(now_ms, old(self).last_interaction()) >= old(self).spec_config().idle_timeout_ms {
                    UserActivityScene::Idle
                } else {
                    old(self).scene()
                },
            },
            snap.stance == stance_for(snap.scene),
            final(self).scene() == snap.scene,
            match old(self).title() {
                Some(t) => snap.active_window_title matches Some(s) && s@ == minimised_title(t),
                None => snap.active_window_title is None,
            },
    {
        let title: Option<String> = match &self.last_window_title {
            Some(t) => Some(t.clone()),
            None => None,
        };
        match &title {
            Some(t) => self.update_environment(Some(t.as_str()), now_ms),
            None => self.update_environment(None, now_ms),
        }
    }
}

} // verus!
