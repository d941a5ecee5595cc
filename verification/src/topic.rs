//! The topic surface of the broker: which topics the service listens to, how
//! a topic is taken apart into the kind of request and the identifier it
//! carries, and where the answer to a request is published.
//!
//! A request topic has four segments, `category/<id>/send/<verb>`. The one
//! topic that is not a request is the liveness signal of the primary
//! instance, `server/<id>/res/heartbeat`.

use vstd::prelude::*;
use vstd::string::*;

verus! {

/// The first segment of a topic.
#[derive(Clone, Copy, Debug, PartialEq, Eq, Structural)]
pub enum Category {
    Member,
    Room,
    Game,
    Server,
    Manager,
}

/// Every topic the service understands, one variant for each pair of
/// category and verb.
#[derive(Clone, Copy, Debug, PartialEq, Eq, Structural)]
pub enum EventKind {
    // member/<id>/...
    Login,
    Logout,
    ChooseHero,
    Status,
    Reconnect,
    Replay,
    AddBlackList,
    QueryBlackList,
    RemoveBlackList,
    // room/<id>/...
    Create,
    Close,
    StartQueue,
    CancelQueue,
    Invite,
    Join,
    AcceptJoin,
    Kick,
    Leave,
    Prestart,
    PrestartGet,
    Start,
    // game/<id>/...
    StartGame,
    GameClose,
    GameOver,
    GameInfo,
    Choose,
    Ban,
    GameLeave,
    Exit,
    Upload,
    ResultUpload,
    RankgameStatus,
    // server/<id>/...
    Heartbeat,
    ServerLogin,
    // manager/<id>/...
    EquTest,
    InsertEqu,
    ModifyUserEqu,
    DeleteUserEqu,
    ModifyEqu,
    NewEqu,
    DeleteEqu,
    ModifyOption,
    NewOption,
    DeleteOption,
}

/// Number of variants of [`EventKind`].
pub const KIND_COUNT: usize = 44;

impl Category {
    /// The text of the category as it stands in a topic.
    pub open spec fn name(self) -> Seq<char> {
        match self {
            Category::Member => "member"@,
            Category::Room => "room"@,
            Category::Game => "game"@,
            Category::Server => "server"@,
            Category::Manager => "manager"@,
        }
    }

    pub fn name_text(self) -> (s: &'static str)
        ensures
            s@ == self.name(),
    {
        match self {
            Category::Member => "member",
            Category::Room => "room",
            Category::Game => "game",
            Category::Server => "server",
            Category::Manager => "manager",
        }
    }
}

impl EventKind {
    /// The category under which the kind is published.
    #[verifier::opaque]
    pub open spec fn category(self) -> Category {
        match self {
            EventKind::Login | EventKind::Logout | EventKind::ChooseHero | EventKind::Status | EventKind::Reconnect | EventKind::Replay | EventKind::AddBlackList | EventKind::QueryBlackList | EventKind::RemoveBlackList => Category::Member,
            EventKind::Create | EventKind::Close | EventKind::StartQueue | EventKind::CancelQueue | EventKind::Invite | EventKind::Join | EventKind::AcceptJoin | EventKind::Kick | EventKind::Leave | EventKind::Prestart | EventKind::PrestartGet | EventKind::Start => Category::Room,
            EventKind::StartGame | EventKind::GameClose | EventKind::GameOver | EventKind::GameInfo | EventKind::Choose | EventKind::Ban | EventKind::GameLeave | EventKind::Exit | EventKind::Upload | EventKind::ResultUpload | EventKind::RankgameStatus => Category::Game,
            EventKind::Heartbeat | EventKind::ServerLogin => Category::Server,
            EventKind::EquTest | EventKind::InsertEqu | EventKind::ModifyUserEqu | EventKind::DeleteUserEqu | EventKind::ModifyEqu | EventKind::NewEqu | EventKind::DeleteEqu | EventKind::ModifyOption | EventKind::NewOption | EventKind::DeleteOption => Category::Manager,
        }
    }

    #[verifier::when_used_as_spec(category)]
    pub fn category_of(self) -> (c: Category)
        ensures
            c == self.category(),
    {
        reveal(EventKind::category);
        match self {
            EventKind::Login | EventKind::Logout | EventKind::ChooseHero | EventKind::Status | EventKind::Reconnect | EventKind::Replay | EventKind::AddBlackList | EventKind::QueryBlackList | EventKind::RemoveBlackList => Category::Member,
            EventKind::Create | EventKind::Close | EventKind::StartQueue | EventKind::CancelQueue | EventKind::Invite | EventKind::Join | EventKind::AcceptJoin | EventKind::Kick | EventKind::Leave | EventKind::Prestart | EventKind::PrestartGet | EventKind::Start => Category::Room,
            EventKind::StartGame | EventKind::GameClose | EventKind::GameOver | EventKind::GameInfo | EventKind::Choose | EventKind::Ban | EventKind::GameLeave | EventKind::Exit | EventKind::Upload | EventKind::ResultUpload | EventKind::RankgameStatus => Category::Game,
            EventKind::Heartbeat | EventKind::ServerLogin => Category::Server,
            EventKind::EquTest | EventKind::InsertEqu | EventKind::ModifyUserEqu | EventKind::DeleteUserEqu | EventKind::ModifyEqu | EventKind::NewEqu | EventKind::DeleteEqu | EventKind::ModifyOption | EventKind::NewOption | EventKind::DeleteOption => Category::Manager,
        }
    }

    /// The last segment of the kind's topic.
    #[verifier::opaque]
    pub open spec fn verb(self) -> Seq<char> {
        match self {
            EventKind::Login => "login"@,
            EventKind::Logout => "logout"@,
            EventKind::ChooseHero => "choose_hero"@,
            EventKind::Status => "status"@,
            EventKind::Reconnect => "reconnect"@,
            EventKind::Replay => "replay"@,
            EventKind::AddBlackList => "add_black_list"@,
            EventKind::QueryBlackList => "query_black_list"@,
            EventKind::RemoveBlackList => "remove_black_list"@,
            EventKind::Create => "create"@,
            EventKind::Close => "close"@,
            EventKind::StartQueue => "start_queue"@,
            EventKind::CancelQueue => "cancel_queue"@,
            EventKind::Invite => "invite"@,
            EventKind::Join => "join"@,
            EventKind::AcceptJoin => "accept_join"@,
            EventKind::Kick => "kick"@,
            EventKind::Leave => "leave"@,
            EventKind::Prestart => "prestart"@,
            EventKind::PrestartGet => "prestart_get"@,
            EventKind::Start => "start"@,
            EventKind::StartGame => "start_game"@,
            EventKind::GameClose => "game_close"@,
            EventKind::GameOver => "game_over"@,
            EventKind::GameInfo => "game_info"@,
            EventKind::Choose => "choose"@,
            EventKind::Ban => "ban"@,
            EventKind::GameLeave => "leave"@,
            EventKind::Exit => "exit"@,
            EventKind::Upload => "upload"@,
            EventKind::ResultUpload => "result_upload"@,
            EventKind::RankgameStatus => "rankgame_status"@,
            EventKind::Heartbeat => "heartbeat"@,
            EventKind::ServerLogin => "login"@,
            EventKind::EquTest => "equ_test"@,
            EventKind::InsertEqu => "insert_equ"@,
            EventKind::ModifyUserEqu => "modify_userequ"@,
            EventKind::DeleteUserEqu => "delete_userequ"@,
            EventKind::ModifyEqu => "modify_equ"@,
            EventKind::NewEqu => "new_equ"@,
            EventKind::DeleteEqu => "delete_equ"@,
            EventKind::ModifyOption => "modify_option"@,
            EventKind::NewOption => "new_option"@,
            EventKind::DeleteOption => "delete_option"@,
        }
    }

    pub fn verb_text(self) -> (s: &'static str)
        ensures
            s@ == self.verb(),
    {
        reveal(EventKind::verb);
        match self {
            EventKind::Login => "login",
            EventKind::Logout => "logout",
            EventKind::ChooseHero => "choose_hero",
            EventKind::Status => "status",
            EventKind::Reconnect => "reconnect",
            EventKind::Replay => "replay",
            EventKind::AddBlackList => "add_black_list",
            EventKind::QueryBlackList => "query_black_list",
            EventKind::RemoveBlackList => "remove_black_list",
            EventKind::Create => "create",
            EventKind::Close => "close",
            EventKind::StartQueue => "start_queue",
            EventKind::CancelQueue => "cancel_queue",
            EventKind::Invite => "invite",
            EventKind::Join => "join",
            EventKind::AcceptJoin => "accept_join",
            EventKind::Kick => "kick",
            EventKind::Leave => "leave",
            EventKind::Prestart => "prestart",
            EventKind::PrestartGet => "prestart_get",
            EventKind::Start => "start",
            EventKind::StartGame => "start_game",
            EventKind::GameClose => "game_close",
            EventKind::GameOver => "game_over",
            EventKind::GameInfo => "game_info",
            EventKind::Choose => "choose",
            EventKind::Ban => "ban",
            EventKind::GameLeave => "leave",
            EventKind::Exit => "exit",
            EventKind::Upload => "upload",
            EventKind::ResultUpload => "result_upload",
            EventKind::RankgameStatus => "rankgame_status",
            EventKind::Heartbeat => "heartbeat",
            EventKind::ServerLogin => "login",
            EventKind::EquTest => "equ_test",
            EventKind::InsertEqu => "insert_equ",
            EventKind::ModifyUserEqu => "modify_userequ",
            EventKind::DeleteUserEqu => "delete_userequ",
            EventKind::ModifyEqu => "modify_equ",
            EventKind::NewEqu => "new_equ",
            EventKind::DeleteEqu => "delete_equ",
            EventKind::ModifyOption => "modify_option",
            EventKind::NewOption => "new_option",
            EventKind::DeleteOption => "delete_option",
        }
    }

    /// The third segment: `res` for the heartbeat, which the primary instance
    /// publishes, `send` for every request.
    pub open spec fn direction(self) -> Seq<char> {
        if self == EventKind::Heartbeat {
            "res"@
        } else {
            "send"@
        }
    }

    pub fn direction_text(self) -> (s: &'static str)
        ensures
            s@ == self.direction(),
    {
        match self {
            EventKind::Heartbeat => "res",
            _ => "send",
        }
    }

    /// Position of the kind in the dispatch table.
    #[verifier::opaque]
    pub open spec fn ordinal(self) -> int {
        match self {
            EventKind::Login => 0,
            EventKind::Logout => 1,
            EventKind::ChooseHero => 2,
            EventKind::Status => 3,
            EventKind::Reconnect => 4,
            EventKind::Replay => 5,
            EventKind::AddBlackList => 6,
            EventKind::QueryBlackList => 7,
            EventKind::RemoveBlackList => 8,
            EventKind::Create => 9,
            EventKind::Close => 10,
            EventKind::StartQueue => 11,
            EventKind::CancelQueue => 12,
            EventKind::Invite => 13,
            EventKind::Join => 14,
            EventKind::AcceptJoin => 15,
            EventKind::Kick => 16,
            EventKind::Leave => 17,
            EventKind::Prestart => 18,
            EventKind::PrestartGet => 19,
            EventKind::Start => 20,
            EventKind::StartGame => 21,
            EventKind::GameClose => 22,
            EventKind::GameOver => 23,
            EventKind::GameInfo => 24,
            EventKind::Choose => 25,
            EventKind::Ban => 26,
            EventKind::GameLeave => 27,
            EventKind::Exit => 28,
            EventKind::Upload => 29,
            EventKind::ResultUpload => 30,
            EventKind::RankgameStatus => 31,
            EventKind::Heartbeat => 32,
            EventKind::ServerLogin => 33,
            EventKind::EquTest => 34,
            EventKind::InsertEqu => 35,
            EventKind::ModifyUserEqu => 36,
            EventKind::DeleteUserEqu => 37,
            EventKind::ModifyEqu => 38,
            EventKind::NewEqu => 39,
            EventKind::DeleteEqu => 40,
            EventKind::ModifyOption => 41,
            EventKind::NewOption => 42,
            EventKind::DeleteOption => 43,
        }
    }

    /// The kind at position `i` of the dispatch table.
    pub fn at(i: usize) -> (k: EventKind)
        requires
            i < KIND_COUNT,
        ensures
            k.ordinal() == i,
    {
        reveal(EventKind::ordinal);
        match i {
            0 => EventKind::Login,
            1 => EventKind::Logout,
            2 => EventKind::ChooseHero,
            3 => EventKind::Status,
            4 => EventKind::Reconnect,
            5 => EventKind::Replay,
            6 => EventKind::AddBlackList,
            7 => EventKind::QueryBlackList,
            8 => EventKind::RemoveBlackList,
            9 => EventKind::Create,
            10 => EventKind::Close,
            11 => EventKind::StartQueue,
            12 => EventKind::CancelQueue,
            13 => EventKind::Invite,
            14 => EventKind::Join,
            15 => EventKind::AcceptJoin,
            16 => EventKind::Kick,
            17 => EventKind::Leave,
            18 => EventKind::Prestart,
            19 => EventKind::PrestartGet,
            20 => EventKind::Start,
            21 => EventKind::StartGame,
            22 => EventKind::GameClose,
            23 => EventKind::GameOver,
            24 => EventKind::GameInfo,
            25 => EventKind::Choose,
            26 => EventKind::Ban,
            27 => EventKind::GameLeave,
            28 => EventKind::Exit,
            29 => EventKind::Upload,
            30 => EventKind::ResultUpload,
            31 => EventKind::RankgameStatus,
            32 => EventKind::Heartbeat,
            33 => EventKind::ServerLogin,
            34 => EventKind::EquTest,
            35 => EventKind::InsertEqu,
            36 => EventKind::ModifyUserEqu,
            37 => EventKind::DeleteUserEqu,
            38 => EventKind::ModifyEqu,
            39 => EventKind::NewEqu,
            40 => EventKind::DeleteEqu,
            41 => EventKind::ModifyOption,
            42 => EventKind::NewOption,
            _ => EventKind::DeleteOption,
        }
    }
}

/// A lower-case letter or an underscore: what category and verb names are made of.
pub open spec fn is_name_char(c: char) -> bool {
    ('a' <= c && c <= 'z') || c == '_'
}

/// A non-empty run of name characters.
pub open spec fn is_name(s: Seq<char>) -> bool {
    &&& s.len() > 0
    &&& forall|i: int| 0 <= i < s.len() ==> is_name_char(#[trigger] s[i])
}

/// A letter or digit.
pub open spec fn is_alnum(c: char) -> bool {
    ('a' <= c && c <= 'z') || ('A' <= c && c <= 'Z') || ('0' <= c && c <= '9')
}

/// An identifier segment: letters and digits, with single hyphens allowed
/// between them. It neither starts nor ends with a hyphen, and no two hyphens
/// are adjacent.
pub open spec fn valid_id(s: Seq<char>) -> bool {
    &&& s.len() > 0
    &&& forall|i: int| 0 <= i < s.len() ==> (is_alnum(#[trigger] s[i]) || s[i] == '-')
    &&& s[0] != '-'
    &&& s[s.len() - 1] != '-'
    &&& forall|i: int| 0 <= i < s.len() - 1 ==> !(#[trigger] s[i] == '-' && s[i + 1] == '-')
}

/// Four segments joined by slashes.
pub open spec fn joined(a: Seq<char>, b: Seq<char>, c: Seq<char>, d: Seq<char>) -> Seq<char> {
    a + seq!['/'] + b + seq!['/'] + c + seq!['/'] + d
}

/// The topic on which a message of kind `k` about `id` arrives.
pub open spec fn topic_text(k: EventKind, id: Seq<char>) -> Seq<char> {
    joined(k.category().name(), id, k.direction(), k.verb())
}

/// The topic on which the answer to a request of kind `k` about `id` goes out:
/// the request topic with `res` in place of `send`.
pub open spec fn response_text(k: EventKind, id: Seq<char>) -> Seq<char> {
    joined(k.category().name(), id, "res"@, k.verb())
}

/// The subscription filter that covers every identifier for kind `k`.
pub open spec fn filter_text(k: EventKind) -> Seq<char> {
    joined(k.category().name(), seq!['+'], k.direction(), k.verb())
}

/// Category names are names.
pub proof fn lemma_category_name(c: Category)
    ensures
        is_name(c.name()),
{
    reveal_strlit("member");
    reveal_strlit("room");
    reveal_strlit("game");
    reveal_strlit("server");
    reveal_strlit("manager");
}

/// Verbs and directions are names.
pub proof fn lemma_kind_names(k: EventKind)
    ensures
        is_name(k.verb()),
        is_name(k.direction()),
        is_name(k.category().name()),
{
    lemma_category_name(k.category());
    reveal(EventKind::verb);
    reveal_strlit("res");
    reveal_strlit("send");
    reveal_strlit("login");
    reveal_strlit("logout");
    reveal_strlit("choose_hero");
    reveal_strlit("status");
    reveal_strlit("reconnect");
    reveal_strlit("replay");
    reveal_strlit("add_black_list");
    reveal_strlit("query_black_list");
    reveal_strlit("remove_black_list");
    reveal_strlit("create");
    reveal_strlit("close");
    reveal_strlit("start_queue");
    reveal_strlit("cancel_queue");
    reveal_strlit("invite");
    reveal_strlit("join");
    reveal_strlit("accept_join");
    reveal_strlit("kick");
    reveal_strlit("leave");
    reveal_strlit("prestart");
    reveal_strlit("prestart_get");
    reveal_strlit("start");
    reveal_strlit("start_game");
    reveal_strlit("game_close");
    reveal_strlit("game_over");
    reveal_strlit("game_info");
    reveal_strlit("choose");
    reveal_strlit("ban");
    reveal_strlit("exit");
    reveal_strlit("upload");
    reveal_strlit("result_upload");
    reveal_strlit("rankgame_status");
    reveal_strlit("heartbeat");
    reveal_strlit("equ_test");
    reveal_strlit("insert_equ");
    reveal_strlit("modify_userequ");
    reveal_strlit("delete_userequ");
    reveal_strlit("modify_equ");
    reveal_strlit("new_equ");
    reveal_strlit("delete_equ");
    reveal_strlit("modify_option");
    reveal_strlit("new_option");
    reveal_strlit("delete_option");
}

/// Where the slashes of a joined topic stand, and what lies between them.
pub proof fn lemma_joined_shape(a: Seq<char>, b: Seq<char>, c: Seq<char>, d: Seq<char>)
    requires
        forall|i: int| 0 <= i < a.len() ==> #[trigger] a[i] != '/',
        forall|i: int| 0 <= i < b.len() ==> #[trigger] b[i] != '/',
        forall|i: int| 0 <= i < c.len() ==> #[trigger] c[i] != '/',
        forall|i: int| 0 <= i < d.len() ==> #[trigger] d[i] != '/',
    ensures
        ({
            let t = joined(a, b, c, d);
            let p1 = a.len() as int;
            let p2 = p1 + 1 + b.len();
            let p3 = p2 + 1 + c.len();
            &&& t.len() == p3 + 1 + d.len()
            &&& t[p1] == '/' && t[p2] == '/' && t[p3] == '/'
            &&& forall|j: int| 0 <= j < t.len() && #[trigger] t[j] == '/' ==> j == p1 || j == p2 || j == p3
            &&& t.subrange(0, p1) == a
            &&& t.subrange(p1 + 1, p2) == b
            &&& t.subrange(p2 + 1, p3) == c
            &&& t.subrange(p3 + 1, t.len() as int) == d
        }),
{
    let t = joined(a, b, c, d);
    let p1 = a.len() as int;
    let p2 = p1 + 1 + b.len();
    let p3 = p2 + 1 + c.len();
    assert(t.len() == p3 + 1 + d.len());
    assert forall|j: int| 0 <= j < t.len() implies (if j < p1 {
        t[j] == a[j]
    } else if j == p1 {
        t[j] == '/'
    } else if j < p2 {
        t[j] == b[j - p1 - 1]
    } else if j == p2 {
        t[j] == '/'
    } else if j < p3 {
        t[j] == c[j - p2 - 1]
    } else if j == p3 {
        t[j] == '/'
    } else {
        t[j] == d[j - p3 - 1]
    }) by {}
    assert(t.subrange(0, p1) =~= a);
    assert(t.subrange(p1 + 1, p2) =~= b);
    assert(t.subrange(p2 + 1, p3) =~= c);
    assert(t.subrange(p3 + 1, t.len() as int) =~= d);
    assert forall|j: int| 0 <= j < t.len() && #[trigger] t[j] == '/' implies j == p1 || j == p2 || j
        == p3 by {
        if j < p1 {
            assert(t[j] == a[j]);
        } else if p1 < j < p2 {
            assert(t[j] == b[j - p1 - 1]);
        } else if p2 < j < p3 {
            assert(t[j] == c[j - p2 - 1]);
        } else if j > p3 {
            assert(t[j] == d[j - p3 - 1]);
        }
    }
}

/// A joined topic of plain segments is plain text.
pub proof fn lemma_joined_ascii(a: Seq<char>, b: Seq<char>, c: Seq<char>, d: Seq<char>)
    requires
        vstd::utf8::is_ascii_chars(a),
        vstd::utf8::is_ascii_chars(b),
        vstd::utf8::is_ascii_chars(c),
        vstd::utf8::is_ascii_chars(d),
    ensures
        vstd::utf8::is_ascii_chars(joined(a, b, c, d)),
{
    let t = joined(a, b, c, d);
    let p1 = a.len() as int;
    let p2 = p1 + 1 + b.len();
    let p3 = p2 + 1 + c.len();
    assert forall|j: int| 0 <= j < t.len() implies '\0' <= #[trigger] t[j] <= '\u{7f}' by {
        if j < p1 {
            assert(t[j] == a[j]);
        } else if j == p1 {
        } else if j < p2 {
            assert(t[j] == b[j - p1 - 1]);
        } else if j == p2 {
        } else if j < p3 {
            assert(t[j] == c[j - p2 - 1]);
        } else if j == p3 {
        } else {
            assert(t[j] == d[j - p3 - 1]);
        }
    }
}

/// The length in characters of a plain-text string.
fn ascii_len(s: &str) -> (n: usize)
    requires
        s.is_ascii(),
    ensures
        n == s@.len(),
{
    proof {
        vstd::utf8::is_ascii_chars_encode_utf8(s@);
    }
    s.as_bytes().len()
}

/// The first slash at or after `from`, or the length of `s` if there is none.
fn find_slash(s: &str, from: usize) -> (p: usize)
    requires
        s.is_ascii(),
        from <= s@.len(),
    ensures
        from <= p <= s@.len(),
        p < s@.len() ==> s@[p as int] == '/',
        forall|j: int| from <= j < p ==> #[trigger] s@[j] != '/',
{
    let n = ascii_len(s);
    let mut p: usize = from;
    while p < n
        invariant
            s.is_ascii(),
            n == s@.len(),
            from <= p <= n,
            forall|j: int| from <= j < p ==> #[trigger] s@[j] != '/',
        decreases n - p,
    {
        if s.get_ascii(p) == 47u8 {
            assert(s@[p as int] as u8 == 47u8);
            assert(s@[p as int] == '/');
            return p;
        }
        assert(s@[p as int] != '/');
        p = p + 1;
    }
    p
}

/// Whether the characters of `s` from `from` up to `to` spell `word`.
fn range_is(s: &str, from: usize, to: usize, word: &str) -> (b: bool)
    requires
        s.is_ascii(),
        word.is_ascii(),
        from <= to <= s@.len(),
    ensures
        b == (s@.subrange(from as int, to as int) == word@),
{
    let m = ascii_len(word);
    if to - from != m {
        return false;
    }
    let ghost part = s@.subrange(from as int, to as int);
    let mut i: usize = 0;
    while i < m
        invariant
            s.is_ascii(),
            word.is_ascii(),
            from <= to <= s@.len(),
            m == word@.len(),
            to - from == m,
            0 <= i <= m,
            part == s@.subrange(from as int, to as int),
            forall|j: int| 0 <= j < i ==> part[j] == word@[j],
        decreases m - i,
    {
        let x = s.get_ascii(from + i);
        let y = word.get_ascii(i);
        if x != y {
            assert(part[i as int] == s@[from + i]);
            assert(part[i as int] != word@[i as int]);
            return false;
        }
        assert(part[i as int] == s@[from + i]);
        assert(s@[from + i] as u8 == word@[i as int] as u8);
        assert(s@[from + i] == word@[i as int]);
        i = i + 1;
    }
    assert(part =~= word@);
    true
}

/// Whether byte `b` is a letter or a digit.
fn byte_is_alnum(b: u8) -> (r: bool)
    ensures
        r == ((97 <= b && b <= 122) || (65 <= b && b <= 90) || (48 <= b && b <= 57)),
{
    (b >= 97 && b <= 122) || (b >= 65 && b <= 90) || (b >= 48 && b <= 57)
}

/// Whether the characters of `s` from `from` up to `to` form an identifier.
fn range_is_id(s: &str, from: usize, to: usize) -> (b: bool)
    requires
        s.is_ascii(),
        from <= to <= s@.len(),
    ensures
        b == valid_id(s@.subrange(from as int, to as int)),
{
    let ghost part = s@.subrange(from as int, to as int);
    if to == from {
        return false;
    }
    let mut i: usize = from;
    let mut after_hyphen: bool = true;
    while i < to
        invariant
            s.is_ascii(),
            from < to <= s@.len(),
            from <= i <= to,
            part == s@.subrange(from as int, to as int),
            forall|j: int| 0 <= j < i - from ==> (is_alnum(#[trigger] part[j]) || part[j] == '-'),
            i > from ==> part[0] != '-',
            forall|j: int| 0 <= j < i - from - 1 ==> !(#[trigger] part[j] == '-' && part[j + 1] == '-'),
            after_hyphen == (i == from || part[i - from - 1] == '-'),
        decreases to - i,
    {
        let b = s.get_ascii(i);
        let ghost c = s@[i as int];
        assert(part[i - from] == c);
        assert(c as u8 == b);
        assert('\0' <= c <= '\u{7f}');
        if b == 45u8 {
            assert(c == '-');
            if after_hyphen {
                proof {
                    if i == from {
                        assert(part[0] == '-');
                    } else {
                        assert(part[i - from - 1] == '-' && part[i - from - 1 + 1] == '-');
                    }
                }
                return false;
            }
            after_hyphen = true;
        } else if byte_is_alnum(b) {
            assert(is_alnum(c));
            assert(c != '-');
            after_hyphen = false;
        } else {
            assert(!is_alnum(c) && c != '-');
            return false;
        }
        i = i + 1;
    }
    if after_hyphen {
        assert(part[part.len() - 1] == '-');
        return false;
    }
    true
}

/// An identifier holds no slash and is plain text.
pub proof fn lemma_id_plain(id: Seq<char>)
    requires
        valid_id(id),
    ensures
        forall|i: int| 0 <= i < id.len() ==> #[trigger] id[i] != '/',
        vstd::utf8::is_ascii_chars(id),
{
    assert forall|i: int| 0 <= i < id.len() implies #[trigger] id[i] != '/' && '\0' <= id[i]
        <= '\u{7f}' by {
        assert(is_alnum(id[i]) || id[i] == '-');
    }
}

/// A name holds no slash and is plain text.
pub proof fn lemma_name_plain(s: Seq<char>)
    requires
        is_name(s),
    ensures
        forall|i: int| 0 <= i < s.len() ==> #[trigger] s[i] != '/',
        vstd::utf8::is_ascii_chars(s),
{
    assert forall|i: int| 0 <= i < s.len() implies #[trigger] s[i] != '/' && '\0' <= s[i]
        <= '\u{7f}' by {
        assert(is_name_char(s[i]));
    }
}

/// The three slashes of a topic stand at `p1`, `p2` and `p3`, and nowhere else.
pub open spec fn splits_at(t: Seq<char>, p1: int, p2: int, p3: int) -> bool {
    &&& 0 <= p1 < p2 < p3 < t.len()
    &&& t[p1] == '/' && t[p2] == '/' && t[p3] == '/'
    &&& forall|j: int| 0 <= j < t.len() && #[trigger] t[j] == '/' ==> j == p1 || j == p2 || j == p3
}

/// The first, third and fourth segment of a split topic are the names of kind `k`.
pub open spec fn names_match(k: EventKind, t: Seq<char>, p1: int, p2: int, p3: int) -> bool {
    &&& t.subrange(0, p1) == k.category().name()
    &&& t.subrange(p2 + 1, p3) == k.direction()
    &&& t.subrange(p3 + 1, t.len() as int) == k.verb()
}

/// The shape of the topic of kind `k` about `id`: three slashes, the four
/// segments between them, and plain text throughout.
pub proof fn lemma_topic_shape(k: EventKind, id: Seq<char>)
    requires
        valid_id(id),
    ensures
        ({
            let t = topic_text(k, id);
            let p1 = k.category().name().len() as int;
            let p2 = p1 + 1 + id.len();
            let p3 = p2 + 1 + k.direction().len();
            &&& vstd::utf8::is_ascii_chars(t)
            &&& splits_at(t, p1, p2, p3)
            &&& names_match(k, t, p1, p2, p3)
            &&& t.subrange(p1 + 1, p2) == id
        }),
{
    lemma_kind_names(k);
    lemma_name_plain(k.category().name());
    lemma_name_plain(k.direction());
    lemma_name_plain(k.verb());
    lemma_id_plain(id);
    lemma_joined_shape(k.category().name(), id, k.direction(), k.verb());
    lemma_joined_ascii(k.category().name(), id, k.direction(), k.verb());
}

/// A topic splits in one way at most.
pub proof fn lemma_split_unique(t: Seq<char>, p1: int, p2: int, p3: int, q1: int, q2: int, q3: int)
    requires
        splits_at(t, p1, p2, p3),
        splits_at(t, q1, q2, q3),
    ensures
        p1 == q1 && p2 == q2 && p3 == q3,
{
}

/// No two kinds share a position in the dispatch table.
pub proof fn lemma_ordinal(a: EventKind, b: EventKind)
    ensures
        0 <= a.ordinal() < KIND_COUNT,
        a.ordinal() == b.ordinal() ==> a == b,
{
    reveal(EventKind::ordinal);
}

/// Finds the three slashes of a topic, if it has exactly three.
fn split_topic(topic: &str) -> (r: Option<(usize, usize, usize)>)
    requires
        topic.is_ascii(),
    ensures
        match r {
            Some((p1, p2, p3)) => splits_at(topic@, p1 as int, p2 as int, p3 as int),
            None => forall|p1: int, p2: int, p3: int| !#[trigger] splits_at(topic@, p1, p2, p3),
        },
{
    let n = ascii_len(topic);
    let p1 = find_slash(topic, 0);
    if p1 >= n {
        return None;
    }
    let p2 = find_slash(topic, p1 + 1);
    if p2 >= n {
        return None;
    }
    let p3 = find_slash(topic, p2 + 1);
    if p3 >= n {
        return None;
    }
    let p4 = find_slash(topic, p3 + 1);
    if p4 < n {
        return None;
    }
    Some((p1, p2, p3))
}

/// The first kind of the dispatch table whose names are the segments of the
/// split topic.
fn find_kind(topic: &str, p1: usize, p2: usize, p3: usize) -> (r: Option<EventKind>)
    requires
        topic.is_ascii(),
        splits_at(topic@, p1 as int, p2 as int, p3 as int),
    ensures
        match r {
            Some(k) => names_match(k, topic@, p1 as int, p2 as int, p3 as int),
            None => forall|k: EventKind| !#[trigger] names_match(k, topic@, p1 as int, p2 as int, p3 as int),
        },
{
    let n = ascii_len(topic);
    let mut i: usize = 0;
    while i < KIND_COUNT
        invariant
            topic.is_ascii(),
            n == topic@.len(),
            p1 < p2 < p3 < n,
            i <= KIND_COUNT,
            forall|k: EventKind|
                #![trigger k.ordinal()]
                0 <= k.ordinal() < i ==> !names_match(k, topic@, p1 as int, p2 as int, p3 as int),
        decreases KIND_COUNT - i,
    {
        let k = EventKind::at(i);
        proof {
            lemma_kind_names(k);
            lemma_name_plain(k.category().name());
            lemma_name_plain(k.direction());
            lemma_name_plain(k.verb());
        }
        if range_is(topic, 0, p1, k.category_of().name_text()) && range_is(
            topic,
            p2 + 1,
            p3,
            k.direction_text(),
        ) && range_is(topic, p3 + 1, n, k.verb_text()) {
            return Some(k);
        }
        assert forall|k2: EventKind| #![trigger k2.ordinal()] 0 <= k2.ordinal() < i + 1 implies !names_match(
            k2,
            topic@,
            p1 as int,
            p2 as int,
            p3 as int,
        ) by {
            lemma_ordinal(k, k2);
        }
        i = i + 1;
    }
    assert forall|k: EventKind| !#[trigger] names_match(
        k,
        topic@,
        p1 as int,
        p2 as int,
        p3 as int,
    ) by {
        lemma_ordinal(k, k);
    }
    None
}

/// A topic that is no plain text, does not split, has no identifier in its
/// second segment or names no kind is the topic of no kind.
proof fn lemma_not_a_topic(t: Seq<char>, k: EventKind, id: Seq<char>)
    requires
        valid_id(id),
        ({
            ||| !vstd::utf8::is_ascii_chars(t)
            ||| forall|p1: int, p2: int, p3: int| !#[trigger] splits_at(t, p1, p2, p3)
            ||| exists|p1: int, p2: int, p3: int|
                #[trigger] splits_at(t, p1, p2, p3) && (!valid_id(t.subrange(p1 + 1, p2))
                    || forall|k2: EventKind| !#[trigger] names_match(k2, t, p1, p2, p3))
        }),
    ensures
        t != topic_text(k, id),
{
    lemma_topic_shape(k, id);
    if t == topic_text(k, id) {
        let q1 = k.category().name().len() as int;
        let q2 = q1 + 1 + id.len();
        let q3 = q2 + 1 + k.direction().len();
        assert(splits_at(t, q1, q2, q3));
        let (p1, p2, p3) = choose|p1: int, p2: int, p3: int|
            #[trigger] splits_at(t, p1, p2, p3) && (!valid_id(t.subrange(p1 + 1, p2))
                || forall|k2: EventKind| !#[trigger] names_match(k2, t, p1, p2, p3));
        lemma_split_unique(t, p1, p2, p3, q1, q2, q3);
        assert(names_match(k, t, p1, p2, p3));
    }
}

/// Takes a topic apart. The answer is the kind of message and the identifier
/// in the second segment; a topic that is not the topic of any kind for any
/// identifier has no answer.
pub fn classify(topic: &str) -> (r: Option<(EventKind, String)>)
    ensures
        match r {
            Some((k, id)) => valid_id(id@) && topic@ == topic_text(k, id@),
            None => forall|k: EventKind, id: Seq<char>|
                valid_id(id) ==> topic@ != #[trigger] topic_text(k, id),
        },
{
    if !topic.is_ascii() {
        assert forall|k: EventKind, id: Seq<char>| valid_id(id) implies topic@ != #[trigger] topic_text(
            k,
            id,
        ) by {
            lemma_not_a_topic(topic@, k, id);
        }
        return None;
    }
    match split_topic(topic) {
        None => {
            assert forall|k: EventKind, id: Seq<char>| valid_id(id) implies topic@
                != #[trigger] topic_text(k, id) by {
                lemma_not_a_topic(topic@, k, id);
            }
            None
        },
        Some((p1, p2, p3)) => {
            if !range_is_id(topic, p1 + 1, p2) {
                assert forall|k: EventKind, id: Seq<char>| valid_id(id) implies topic@
                    != #[trigger] topic_text(k, id) by {
                    assert(splits_at(topic@, p1 as int, p2 as int, p3 as int));
                    lemma_not_a_topic(topic@, k, id);
                }
                return None;
            }
            match find_kind(topic, p1, p2, p3) {
                None => {
                    assert forall|k: EventKind, id: Seq<char>| valid_id(id) implies topic@
                        != #[trigger] topic_text(k, id) by {
                        assert(splits_at(topic@, p1 as int, p2 as int, p3 as int));
                        lemma_not_a_topic(topic@, k, id);
                    }
                    None
                },
                Some(k) => {
                    let id = String::from_str(topic.substring_ascii(p1 + 1, p2));
                    proof {
                        let t = topic@;
                        assert(t =~= joined(
                            t.subrange(0, p1 as int),
                            t.subrange(p1 + 1, p2 as int),
                            t.subrange(p2 + 1, p3 as int),
                            t.subrange(p3 + 1, t.len() as int),
                        ));
                    }
                    Some((k, id))
                },
            }
        },
    }
}

/// Joins four plain segments with slashes.
fn join_segments(a: &str, b: &str, c: &str, d: &str) -> (t: String)
    ensures
        t@ == joined(a@, b@, c@, d@),
{
    proof {
        reveal_strlit("/");
        assert("/"@ =~= seq!['/']);
    }
    String::from_str(a).concat("/").concat(b).concat("/").concat(c).concat("/").concat(d)
}

/// The topic on which a message of kind `kind` about `id` is published.
pub fn request_topic(kind: EventKind, id: &str) -> (t: String)
    ensures
        t@ == topic_text(kind, id@),
{
    join_segments(kind.category_of().name_text(), id, kind.direction_text(), kind.verb_text())
}

/// The topic on which the answer to a request goes out.
pub fn response_topic(kind: EventKind, id: &str) -> (t: String)
    ensures
        t@ == response_text(kind, id@),
{
    join_segments(kind.category_of().name_text(), id, "res", kind.verb_text())
}

/// The filter to subscribe to for messages of kind `kind`, whatever the identifier.
pub fn subscription(kind: EventKind) -> (t: String)
    ensures
        t@ == filter_text(kind),
{
    proof {
        reveal_strlit("+");
        assert("+"@ =~= seq!['+']);
    }
    join_segments(kind.category_of().name_text(), "+", kind.direction_text(), kind.verb_text())
}

/// Categories with the same name are the same category.
pub proof fn lemma_category_by_name(a: Category, b: Category)
    requires
        a.name() == b.name(),
    ensures
        a == b,
{
    reveal_strlit("member");
    reveal_strlit("room");
    reveal_strlit("game");
    reveal_strlit("server");
    reveal_strlit("manager");
    let x = a.name();
    let y = b.name();
    assert(x.len() == y.len());
    assert(x[0] == y[0]);
    match a {
        Category::Member => {
            assert(x.len() == 6 && x[0] == 'm');
        },
        Category::Room => {
            assert(x.len() == 4 && x[0] == 'r');
        },
        Category::Game => {
            assert(x.len() == 4 && x[0] == 'g');
        },
        Category::Server => {
            assert(x.len() == 6 && x[0] == 's');
        },
        Category::Manager => {
            assert(x.len() == 7 && x[0] == 'm');
        },
    }
    match b {
        Category::Member => {
            assert(y.len() == 6 && y[0] == 'm');
        },
        Category::Room => {
            assert(y.len() == 4 && y[0] == 'r');
        },
        Category::Game => {
            assert(y.len() == 4 && y[0] == 'g');
        },
        Category::Server => {
            assert(y.len() == 6 && y[0] == 's');
        },
        Category::Manager => {
            assert(y.len() == 7 && y[0] == 'm');
        },
    }
}

/// Within one category, kinds with the same verb are the same kind: the
/// patterns of the dispatch table are disjoint.
#[verifier::rlimit(100)]
#[verifier::spinoff_prover]
pub proof fn lemma_kind_by_names(a: EventKind, b: EventKind)
    requires
        a.category() == b.category(),
        a.verb() == b.verb(),
    ensures
        a == b,
{
    reveal(EventKind::verb);
    reveal(EventKind::category);
    reveal_strlit("login");
    reveal_strlit("logout");
    reveal_strlit("choose_hero");
    reveal_strlit("status");
    reveal_strlit("reconnect");
    reveal_strlit("replay");
    reveal_strlit("add_black_list");
    reveal_strlit("query_black_list");
    reveal_strlit("remove_black_list");
    reveal_strlit("create");
    reveal_strlit("close");
    reveal_strlit("start_queue");
    reveal_strlit("cancel_queue");
    reveal_strlit("invite");
    reveal_strlit("join");
    reveal_strlit("accept_join");
    reveal_strlit("kick");
    reveal_strlit("leave");
    reveal_strlit("prestart");
    reveal_strlit("prestart_get");
    reveal_strlit("start");
    reveal_strlit("start_game");
    reveal_strlit("game_close");
    reveal_strlit("game_over");
    reveal_strlit("game_info");
    reveal_strlit("choose");
    reveal_strlit("ban");
    reveal_strlit("exit");
    reveal_strlit("upload");
    reveal_strlit("result_upload");
    reveal_strlit("rankgame_status");
    reveal_strlit("heartbeat");
    reveal_strlit("equ_test");
    reveal_strlit("insert_equ");
    reveal_strlit("modify_userequ");
    reveal_strlit("delete_userequ");
    reveal_strlit("modify_equ");
    reveal_strlit("new_equ");
    reveal_strlit("delete_equ");
    reveal_strlit("modify_option");
    reveal_strlit("new_option");
    reveal_strlit("delete_option");
    let x = a.verb();
    let y = b.verb();
    assert(x.len() == y.len());
    assert(x[0] == y[0]);
    assert(x[1] == y[1]);
    assert(x[2] == y[2]);
    assert(x[3] == y[3]);
    assert(x[4] == y[4]);
    assert(x[5] == y[5]);
    assert(x[7] == y[7]);
}

/// A topic names one kind and one identifier at most.
pub proof fn topic_text_injective(k1: EventKind, id1: Seq<char>, k2: EventKind, id2: Seq<char>)
    requires
        valid_id(id1),
        valid_id(id2),
        topic_text(k1, id1) == topic_text(k2, id2),
    ensures
        k1 == k2,
        id1 == id2,
{
    let t = topic_text(k1, id1);
    lemma_topic_shape(k1, id1);
    lemma_topic_shape(k2, id2);
    let p1 = k1.category().name().len() as int;
    let p2 = p1 + 1 + id1.len();
    let p3 = p2 + 1 + k1.direction().len();
    let q1 = k2.category().name().len() as int;
    let q2 = q1 + 1 + id2.len();
    let q3 = q2 + 1 + k2.direction().len();
    lemma_split_unique(t, p1, p2, p3, q1, q2, q3);
    lemma_category_by_name(k1.category(), k2.category());
    lemma_kind_by_names(k1, k2);
}

/// The bytes of the word `reset`.
pub open spec fn reset_word() -> Seq<u8> {
    seq![114u8, 101u8, 115u8, 101u8, 116u8]
}

/// Whether the word `reset` stands in `bytes` at position `i`.
pub open spec fn reset_at(bytes: Seq<u8>, i: int) -> bool {
    0 <= i && i + 5 <= bytes.len() && bytes.subrange(i, i + 5) == reset_word()
}

/// Whether the word `reset` stands somewhere in `bytes`.
pub open spec fn has_reset(bytes: Seq<u8>) -> bool {
    exists|i: int| reset_at(bytes, i)
}

/// Whether a topic asks for a reset: any topic whose UTF-8 bytes hold the
/// word `reset`, wherever it stands.
pub fn mentions_reset(topic: &str) -> (b: bool)
    ensures
        b == has_reset(topic.spec_bytes()),
{
    let bytes = topic.as_bytes();
    let n = bytes.len();
    if n < 5 {
        assert(forall|i: int| !reset_at(bytes@, i));
        return false;
    }
    let mut i: usize = 0;
    while i <= n - 5
        invariant
            bytes@ == topic.spec_bytes(),
            n == bytes@.len(),
            5 <= n,
            i <= n - 4,
            forall|j: int| 0 <= j < i ==> !reset_at(bytes@, j),
        decreases n - i,
    {
        if bytes[i] == 114 && bytes[i + 1] == 101 && bytes[i + 2] == 115 && bytes[i + 3] == 101
            && bytes[i + 4] == 116 {
            assert(bytes@.subrange(i as int, i + 5) =~= reset_word());
            assert(reset_at(bytes@, i as int));
            return true;
        }
        proof {
            let part = bytes@.subrange(i as int, i + 5);
            if part == reset_word() {
                assert(part[0] == bytes@[i as int]);
                assert(part[1] == bytes@[i + 1]);
                assert(part[2] == bytes@[i + 2]);
                assert(part[3] == bytes@[i + 3]);
                assert(part[4] == bytes@[i + 4]);
                assert(false);
            }
        }
        i = i + 1;
    }
    assert(forall|j: int| !reset_at(bytes@, j));
    false
}

/// Whether a text is an identifier.
pub fn is_valid_id(s: &str) -> (b: bool)
    ensures
        b == valid_id(s@),
{
    if !s.is_ascii() {
        proof {
            if valid_id(s@) {
                lemma_id_plain(s@);
            }
        }
        return false;
    }
    let n = ascii_len(s);
    assert(s@.subrange(0, n as int) =~= s@);
    range_is_id(s, 0, n)
}

/// An identifier is made of letters, digits and hyphens alone: it holds no
/// quote, no backslash, no blank and no control character, so it can stand
/// between quotes as a value without ending them.
pub proof fn id_is_a_plain_value(id: Seq<char>)
    requires
        valid_id(id),
    ensures
        forall|i: int|
            0 <= i < id.len() ==> {
                &&& #[trigger] id[i] != '\''
                &&& id[i] != '"'
                &&& id[i] != '\\'
                &&& id[i] != ';'
                &&& id[i] != ' '
                &&& id[i] >= '-'
            },
{
    assert forall|i: int| 0 <= i < id.len() implies {
        &&& #[trigger] id[i] != '\''
        &&& id[i] != '"'
        &&& id[i] != '\\'
        &&& id[i] != ';'
        &&& id[i] != ' '
        &&& id[i] >= '-'
    } by {
        assert(is_alnum(id[i]) || id[i] == '-');
    }
}

} // verus!
