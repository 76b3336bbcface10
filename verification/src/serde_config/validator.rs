//! The checks a configuration must pass.
use vstd::prelude::*;
use crate::serde_config::config::AppConfig;
use crate::serde_config::config::DatabaseConfig;
use crate::serde_config::config::ServerConfig;

verus! {

/// A failed check: the field it concerns and what is wrong with it.
#[derive(Debug, Clone, PartialEq)]
pub struct ValidationError {
    pub field: String,
    pub message: String,
}

/// A failed check as a pair of character sequences.
pub open spec fn error_view(e: ValidationError) -> (Seq<char>, Seq<char>) {
    (e.field@, e.message@)
}

/// A list of failed checks as pairs of character sequences.
pub open spec fn errors_view(v: Seq<ValidationError>) -> Seq<(Seq<char>, Seq<char>)> {
    v.map_values(|e: ValidationError| error_view(e))
}

/// `item` when `cond` holds, nothing otherwise.
pub open spec fn when(cond: bool, item: (Seq<char>, Seq<char>)) -> Seq<(Seq<char>, Seq<char>)> {
    if cond {
        seq![item]
    } else {
        Seq::empty()
    }
}

/// The failed checks of a server configuration, in order: empty host, port
/// 0, no workers, no connections allowed.
pub open spec fn server_errors(c: ServerConfig) -> Seq<(Seq<char>, Seq<char>)> {
    when(c.host@.len() == 0, ("server.host"@, "主机名不能为空"@)) + when(
        c.port == 0,
        ("server.port"@, "端口号无效"@),
    ) + when(c.workers == 0, ("server.workers"@, "工作线程数必须大于 0"@)) + when(
        c.max_connections == 0,
        ("server.max_connections"@, "最大连接数必须大于 0"@),
    )
}

/// The failed checks of a database configuration, in order: empty URL, a
/// pool of more than 100 connections.
pub open spec fn database_errors(c: DatabaseConfig) -> Seq<(Seq<char>, Seq<char>)> {
    when(c.url@.len() == 0, ("database.url"@, "数据库 URL 不能为空"@)) + when(
        c.pool_size > 100,
        ("database.pool_size"@, "连接池大小不应超过 100"@),
    )
}

/// A server configuration passes exactly when its host is not empty and
/// its port, workers and connection limit are not 0; each check that fails
/// is reported under its field.
pub proof fn law_server_errors(c: ServerConfig)
    ensures
        server_errors(c).len() == 0 <==> c.host@.len() > 0 && c.port != 0 && c.workers != 0
            && c.max_connections != 0,
        c.host@.len() == 0 ==> server_errors(c).contains(("server.host"@, "主机名不能为空"@)),
        c.port == 0 ==> server_errors(c).contains(("server.port"@, "端口号无效"@)),
        c.workers == 0 ==> server_errors(c).contains(("server.workers"@, "工作线程数必须大于 0"@)),
        c.max_connections == 0 ==> server_errors(c).contains(
            ("server.max_connections"@, "最大连接数必须大于 0"@),
        ),
        server_errors(c).len() <= 4,
{
    let a = when(c.host@.len() == 0, ("server.host"@, "主机名不能为空"@));
    let b = when(c.port == 0, ("server.port"@, "端口号无效"@));
    let d = when(c.workers == 0, ("server.workers"@, "工作线程数必须大于 0"@));
    let e = when(c.max_connections == 0, ("server.max_connections"@, "最大连接数必须大于 0"@));
    let all = a + b + d + e;
    assert(server_errors(c) == all);
    if c.host@.len() == 0 {
        assert(all[0] == a[0]);
    }
    if c.port == 0 {
        assert(all[a.len() as int] == b[0]);
    }
    if c.workers == 0 {
        assert(all[(a.len() + b.len()) as int] == d[0]);
    }
    if c.max_connections == 0 {
        assert(all[(a.len() + b.len() + d.len()) as int] == e[0]);
    }
}

/// A database configuration passes exactly when its URL is not empty and
/// its pool has at most 100 connections; each check that fails is reported
/// under its field.
pub proof fn law_database_errors(c: DatabaseConfig)
    ensures
        database_errors(c).len() == 0 <==> c.url@.len() > 0 && c.pool_size <= 100,
        c.url@.len() == 0 ==> database_errors(c).contains(("database.url"@, "数据库 URL 不能为空"@)),
        c.pool_size > 100 ==> database_errors(c).contains(
            ("database.pool_size"@, "连接池大小不应超过 100"@),
        ),
{
    let a = when(c.url@.len() == 0, ("database.url"@, "数据库 URL 不能为空"@));
    let b = when(c.pool_size > 100, ("database.pool_size"@, "连接池大小不应超过 100"@));
    let all = a + b;
    assert(database_errors(c) == all);
    if c.url@.len() == 0 {
        assert(all[0] == a[0]);
    }
    if c.pool_size > 100 {
        assert(all[a.len() as int] == b[0]);
    }
}

/// `r` is `Ok` when `errs` is empty and otherwise `Err` of exactly `errs`.
pub open spec fn reports(r: Result<(), Vec<ValidationError>>, errs: Seq<(Seq<char>, Seq<char>)>) -> bool {
    match r {
        Ok(_) => errs.len() == 0,
        Err(v) => errs.len() > 0 && errors_view(v@) == errs,
    }
}

impl ValidationError {
    /// A failed check of `field`, described by `message`.
    pub fn new(field: &str, message: &str) -> (e: Self)
        ensures
            e.field@ == field@,
            e.message@ == message@,
    {
        ValidationError { field: field.to_owned(), message: message.to_owned() }
    }
}

/// Adds a failed check to `errors` when `failed` holds.
fn note(errors: &mut Vec<ValidationError>, failed: bool, field: &str, message: &str)
    ensures
        errors_view(final(errors)@) == errors_view(old(errors)@) + when(failed, (field@, message@)),
{
    let ghost before = errors@;
    if failed {
        errors.push(ValidationError::new(field, message));
        assert(errors_view(errors@) =~= errors_view(before) + seq![(field@, message@)]);
    } else {
        assert(errors_view(errors@) =~= errors_view(before) + Seq::empty());
    }
}

/// `errors` as the result of a check.
fn finish(errors: Vec<ValidationError>) -> (r: Result<(), Vec<ValidationError>>)
    ensures
        reports(r, errors_view(errors@)),
{
    if errors.len() == 0 {
        Ok(())
    } else {
        Err(errors)
    }
}

/// Checks of a whole configuration.
pub struct ConfigValidator;

impl ConfigValidator {
    /// The server checks, then the database checks; `Ok` when none fails.
    pub fn validate(config: &AppConfig) -> (r: Result<(), Vec<ValidationError>>)
        ensures
            reports(r, server_errors(config.server) + database_errors(config.database)),
    {
        let mut errors: Vec<ValidationError> = Vec::new();
        let ghost empty = errors@;
        match Self::validate_server(&config.server) {
            Err(mut e) => {
                errors.append(&mut e);
            },
            Ok(_) => {},
        }
        assert(errors_view(errors@) =~= server_errors(config.server));
        let ghost mid = errors@;
        match Self::validate_database(&config.database) {
            Err(mut e) => {
                let ghost ev = e@;
                errors.append(&mut e);
                assert(errors_view(errors@) =~= errors_view(mid) + errors_view(ev));
            },
            Ok(_) => {},
        }
        assert(errors_view(errors@) =~= server_errors(config.server) + database_errors(
            config.database,
        ));
        finish(errors)
    }

    /// The server checks; `Ok` when none fails.
    pub fn validate_server(config: &ServerConfig) -> (r: Result<(), Vec<ValidationError>>)
        ensures
            reports(r, server_errors(*config)),
    {
        let mut errors: Vec<ValidationError> = Vec::new();
        note(&mut errors, config.host.as_str().is_empty(), "server.host", "主机名不能为空");
        note(&mut errors, config.port == 0, "server.port", "端口号无效");
        note(&mut errors, config.workers == 0, "server.workers", "工作线程数必须大于 0");
        note(
            &mut errors,
            config.max_connections == 0,
            "server.max_connections",
            "最大连接数必须大于 0",
        );
        assert(errors_view(errors@) =~= server_errors(*config));
        finish(errors)
    }

    /// The database checks; `Ok` when none fails.
    pub fn validate_database(config: &DatabaseConfig) -> (r: Result<(), Vec<ValidationError>>)
        ensures
            reports(r, database_errors(*config)),
    {
        let mut errors: Vec<ValidationError> = Vec::new();
        note(&mut errors, config.url.as_str().is_empty(), "database.url", "数据库 URL 不能为空");
        note(&mut errors, config.pool_size > 100, "database.pool_size", "连接池大小不应超过 100");
        assert(errors_view(errors@) =~= database_errors(*config));
        finish(errors)
    }
}

/// A configuration passes the whole check exactly when its server part and
/// its database part each pass theirs, and a failing whole check reports the
/// server's failures before the database's.
pub proof fn law_validate_combines(config: AppConfig)
    ensures
        (server_errors(config.server) + database_errors(config.database)).len() == 0 <==> (
        server_errors(config.server).len() == 0 && database_errors(config.database).len() == 0),
        (server_errors(config.server) + database_errors(config.database)).subrange(
            0,
            server_errors(config.server).len() as int,
        ) == server_errors(config.server),
{
    assert((server_errors(config.server) + database_errors(config.database)).subrange(
        0,
        server_errors(config.server).len() as int,
    ) =~= server_errors(config.server));
}

} // verus!
