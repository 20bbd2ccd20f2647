//! The settings that the synchronisation, the web server and the calendar
//! export read.

use vstd::prelude::*;
use vstd::string::*;

verus! {

/// The mathematical value of a [`RoomConfig`].
pub struct RoomConfigView {
    pub churchtools_id: int,
    pub name: Seq<char>,
    pub location_hint: Seq<char>,
}

/// A room as configured: the remote resource it stands for and how it is
/// shown.
#[derive(Debug, Clone)]
pub struct RoomConfig {
    pub churchtools_id: i64,
    pub name: String,
    pub location_hint: String,
}

impl View for RoomConfig {
    type V = RoomConfigView;

    open spec fn view(&self) -> RoomConfigView {
        RoomConfigView {
            churchtools_id: self.churchtools_id as int,
            name: self.name@,
            location_hint: self.location_hint@,
        }
    }
}

impl RoomConfig {
    /// The location line of a calendar entry: the room's name, ` - `, and
    /// the hint where to find it.
    pub fn ics_location(&self) -> (r: String)
        ensures
            r@ == self.name@ + seq![' ', '-', ' '] + self.location_hint@,
    {
        let mut out = self.name.clone();
        proof {
            reveal_strlit(" - ");
        }
        out.append(" - ");
        out.append(self.location_hint.as_str());
        assert(" - "@ =~= seq![' ', '-', ' ']);
        out
    }

    /// A copy of `self`.
    pub fn duplicate(&self) -> (r: RoomConfig)
        ensures
            r@ == self@,
    {
        RoomConfig {
            churchtools_id: self.churchtools_id,
            name: self.name.clone(),
            location_hint: self.location_hint.clone(),
        }
    }
}

/// How the remote system is reached, and how often it is asked.
pub struct ChurchToolsConfig {
    pub host: String,
    pub login_token: String,
    /// The seconds between two synchronisation cycles.
    pub ct_pull_frequency: u64,
}

impl ChurchToolsConfig {
    /// The address under which the remote system hands out bookings.
    pub fn bookings_url(&self) -> (url: String)
        ensures
            url@ == "https://"@ + self.host@ + "/api/bookings"@,
    {
        let mut url = "https://".to_owned();
        url.append(self.host.as_str());
        url.append("/api/bookings");
        url
    }

    /// The value of the `Authorization` header of a request.
    pub fn authorization(&self) -> (value: String)
        ensures
            value@ == "Login "@ + self.login_token@,
    {
        let mut value = "Login ".to_owned();
        value.append(self.login_token.as_str());
        value
    }
}

/// The web server's settings as the configuration file gives them.
#[derive(Debug, Clone)]
pub struct WebConfigData {
    pub addr: String,
    pub port: Option<u16>,
    pub tls_port: Option<u16>,
    pub tls_cert_file: Option<String>,
    pub tls_key_file: Option<String>,
}

/// The files from which the TLS certificate and its key are read.
#[derive(Debug, Clone)]
pub struct TlsFiles {
    pub cert_file: String,
    pub key_file: String,
}

/// The web server's settings with the defaults filled in.
#[derive(Debug, Clone)]
pub struct WebConfig {
    pub addr: String,
    pub port: u16,
    pub tls_port: u16,
    /// Present where the server is to speak TLS as well.
    pub tls_files: Option<TlsFiles>,
}

impl WebConfig {
    /// Fills in the defaults: port 80, TLS port 443. TLS is served where
    /// both the certificate file and the key file are named.
    pub fn from_web_config_data(value: WebConfigData) -> (r: WebConfig)
        ensures
            r.addr@ == value.addr@,
            r.port == (if value.port is Some {
                value.port->0
            } else {
                80u16
            }),
            r.tls_port == (if value.tls_port is Some {
                value.tls_port->0
            } else {
                443u16
            }),
            r.tls_files is Some <==> value.tls_cert_file is Some && value.tls_key_file is Some,
            r.tls_files is Some ==> r.tls_files->0.cert_file@ == value.tls_cert_file->0@
                && r.tls_files->0.key_file@ == value.tls_key_file->0@,
    {
        let tls_files = match (value.tls_cert_file, value.tls_key_file) {
            (Some(cert_file), Some(key_file)) => Some(TlsFiles { cert_file, key_file }),
            _ => None,
        };
        let port = match value.port {
            Some(p) => p,
            None => 80,
        };
        let tls_port = match value.tls_port {
            Some(p) => p,
            None => 443,
        };
        WebConfig { addr: value.addr, port, tls_port, tls_files }
    }
}

} // verus!
