//! The Ruby files that are written into the runtime directory: the helpers
//! that commands run in a daemon, and what makes the native modules loadable.
use vstd::prelude::*;
use crate::commands::launch::Helper;
use crate::protocol::request;

verus! {

/// Runs rake.
pub const RAKE_SHIM: &'static str = "# frozen_string_literal: true
# Gerado pelo calisto: equivale ao bin/rake do Rails (`load Gem.bin_path`),
# sem depender de binstub existir. O child roda com o Gemfile ativo.
begin
  load Gem.bin_path(\"rake\", \"rake\")
rescue Gem::GemNotFoundException => e
  warn \"calisto task: rake nao encontrado no bundle: #{e.message}\"
  exit 1
end
";

/// What `require "calisto/sqlite"` loads.
pub const SQLITE_SHIM: &'static str = "# frozen_string_literal: true
# Gerado pelo calisto (Fase P): marcador das APIs nativas `calisto/sqlite`
# (binding Rust sobre libsqlite3 do sistema, registrado no boot do daemon).
unless defined?(Calisto::SQLite)
  raise LoadError, \"calisto/sqlite e nativo do daemon calisto (indisponivel em --cold ou com daemon legado)\"
end
Calisto::SQLite
";

/// What `require "calisto/hash"` loads.
pub const HASH_SHIM: &'static str = "# frozen_string_literal: true
# Gerado pelo calisto (Fase P): marcador das APIs nativas `calisto/hash`
# (sha256/blake3 em Rust no daemon). Fallback puro em --cold: sha256 via
# Digest (mesmo hexdigest — paridade cold/warm); blake3 e so nativo.
if defined?(Calisto::Hash)
  Calisto::Hash
else
  require \"digest\"
  module Calisto
    module Hash
      def self.sha256(data)
        Digest::SHA256.hexdigest(data)
      end

      def self.blake3(_data)
        raise NotImplementedError, \"Calisto::Hash.blake3 requer o daemon calisto (indisponivel em --cold)\"
      end

      def self.xxh64(_data, _seed = 0)
        raise NotImplementedError, \"Calisto::Hash.xxh64 requer o daemon calisto (indisponivel em --cold)\"
      end
    end
  end
end
";

/// What `require "calisto/base64"` loads.
pub const BASE64_SHIM: &'static str = "# frozen_string_literal: true
# Gerado pelo calisto (Fase T): marcador das APIs nativas `calisto/base64`
# (Rust no daemon). Fallback puro em --cold: stdlib base64 (mesma saida).
if defined?(Calisto::Base64)
  Calisto::Base64
else
  require \"base64\"
  module Calisto
    module Base64
      def self.encode64(bin) = ::Base64.encode64(bin)
      def self.decode64(str) = ::Base64.decode64(str)
      def self.strict_encode64(bin) = ::Base64.strict_encode64(bin)
      def self.strict_decode64(str) = ::Base64.strict_decode64(str)
      def self.urlsafe_encode64(bin, padding: true) = ::Base64.urlsafe_encode64(bin, padding:)
      def self.urlsafe_decode64(str) = ::Base64.urlsafe_decode64(str)
    end
  end
end
";

/// What `require "calisto/url"` loads.
pub const URL_SHIM: &'static str = "# frozen_string_literal: true
# Gerado pelo calisto (Fase T): marcador das APIs nativas `calisto/url`
# (Rust no daemon). Fallback puro em --cold: CGI da stdlib.
if defined?(Calisto::URL)
  Calisto::URL
else
  require \"cgi\"
  module Calisto
    module URL
      def self.escape(s) = CGI.escape(s)
      def self.unescape(s) = CGI.unescape(s)
    end
  end
end
";

/// What `require "calisto/html"` loads.
pub const HTML_SHIM: &'static str = "# frozen_string_literal: true
# Gerado pelo calisto (Fase T): marcador das APIs nativas `calisto/html`
# (Rust no daemon). Fallback puro em --cold: ERB::Util da stdlib.
if defined?(Calisto::HTML)
  Calisto::HTML
else
  require \"erb\"
  module Calisto
    module HTML
      def self.escape(s) = ERB::Util.html_escape(s)
    end
  end
end
";

/// Serves a Rack application.
pub const SERVE_LAUNCHER: &'static str = "# frozen_string_literal: true
# Gerado pelo calisto: serve o config.ru do cwd (Rack app) no daemon quente,
# como child do fork — o boot da app ja foi pago no daemon.
require \"rack\"
begin
  require \"rackup\"
rescue LoadError
  # rack 2: Rack::Server continua no proprio rack
end
port = Integer(ENV.fetch(\"CALISTO_SERVE_PORT\", \"3000\"))
host = ENV.fetch(\"CALISTO_SERVE_HOST\", \"127.0.0.1\")
config = File.join(Dir.pwd, \"config.ru\")
abort \"calisto serve: #{config} nao existe (rode na raiz do projeto)\" unless File.file?(config)
app, = Rack::Builder.parse_file(config)
if defined?(Rackup::Server)
  Rackup::Server.start(app: app, Host: host, Port: port,
                       environment: ENV.fetch(\"RACK_ENV\", \"development\"))
elsif Rack::Server.respond_to?(:start)
  Rack::Server.start(app: app, Host: host, Port: port)
else
  abort \"calisto serve: precisa de rackup (rack 3) ou rack 2 no Gemfile\"
end
";

/// Runs the program of a gem.
pub const EXEC_SHIM: &'static str = "# frozen_string_literal: true
# Gerado pelo calisto: `calisto exec <bin>` — resolve como `bundle exec` e roda
# o binario no daemon quente (child do fork, Gemfile ja ativo). Resolucao:
#   1. argumento que e um caminho de arquivo executavel (ex.: ./bin/rails)
#   2. spec do bundle ativo (Gem.loaded_specs) cujo executavel e o nome — nao
#      depende de binstub (`bundle binstubs` desnecessario)
#   3. PATH (binarios de sistema)
# Binario ruby (shebang ruby) e carregado in-process, como o kernel_load do
# bundler: $0 = caminho, ARGV = args, `load` — sem depender de shebang no PATH
# nem de re-exec. Binario nativo e `exec` direto.
name = ARGV.shift
abort \"calisto exec: uso: calisto exec <bin> [args...]\" if name.nil? || name.empty?

def calisto_exec_resolve(name)
  # 1. caminho de arquivo (como Bundler.which): relativo/absoluto
  if name.include?(File::SEPARATOR)
    path = File.expand_path(name)
    return path if File.file?(path) && File.executable?(path)
  end
  # 2. specs ativadas pelo bundle (Bundler.setup ja rodou no child do fork).
  #    Default gems aparecem 2x (default + instalada) — dedup por nome; so e
  #    ambiguidade de verdade quando gems DIFERENTES fornecem o executavel.
  specs = Gem.loaded_specs.values.select { |s| s.executables.include?(name) }
  specs = specs.uniq(&:name)
  if specs.size == 1
    return Gem.bin_path(specs.first.name, name)
  elsif specs.size >= 2
    return specs # ambiguidade real: 2+ gems diferentes fornecem o executavel
  end
  # 0 specs: cai no PATH (binarios de sistema, como `bundle exec` fora de bundle)
  # 3. PATH
  ENV.fetch(\"PATH\", \"\").split(File::PATH_SEPARATOR).each do |dir|
    next if dir.empty?
    path = File.join(dir, name)
    return path if File.file?(path) && File.executable?(path)
  end
  nil
end

def calisto_exec_ruby?(file)
  first = File.open(file, \"rb\") { |f| f.read(64).to_s }
  first.start_with?(\"#!/usr/bin/env ruby\", \"#!/usr/bin/env jruby\",
                   \"#!/usr/bin/env truffleruby\", \"#!#{Gem.ruby}\")
end

found = calisto_exec_resolve(name)
case found
when nil
  warn \"calisto exec: comando nao encontrado: #{name}\"
  warn \"calisto exec: instale a gem que o fornece no Gemfile (bundle add ...) ou use o PATH\"
  exit 127
when Array
  # divergencia do bundle exec (que pega o primeiro do PATH): ambiguidade e
  # erro claro com os candidatos, em vez de ordem arbitraria
  warn \"calisto exec: '#{name}' ambiguo: #{found.map(&:name).join(', ')}\"
  exit 1
end

args = ARGV
if calisto_exec_ruby?(found)
  # kernel_load do bundler: in-process, sem shebang/re-exec
  $0 = found
  ARGV.replace(args)
  load found
else
  begin
    exec found, *args
  rescue Errno::EACCES, Errno::ENOEXEC
    warn \"calisto exec: nao executavel: #{name} (#{found})\"
    exit 126
  rescue Errno::ENOENT
    warn \"calisto exec: comando nao encontrado: #{name}\"
    exit 127
  end
end
";

/// Runs IRB.
pub const REPL_SHIM: &'static str = "# frozen_string_literal: true
# Gerado pelo calisto: `calisto repl` — IRB no daemon quente, no contexto da
# app pre-carregada (fork do boot congelado). Args sao repassados ao IRB
# (IRB.setup faz parse de ARGV, como o binario `irb`).
require \"irb\"
IRB.start
";

/// The program of a helper.
pub fn helper_text(helper: Helper) -> (r: &'static str)
    ensures
        r@ == (match helper {
            Helper::Exec => EXEC_SHIM@,
            Helper::Task => RAKE_SHIM@,
            Helper::Repl => REPL_SHIM@,
            Helper::Serve => SERVE_LAUNCHER@,
        }),
{
    match helper {
        Helper::Exec => EXEC_SHIM,
        Helper::Task => RAKE_SHIM,
        Helper::Repl => REPL_SHIM,
        Helper::Serve => SERVE_LAUNCHER,
    }
}

/// The files that make the native modules loadable: where each stands in the
/// runtime directory, and what it holds.
pub open spec fn native_files() -> Seq<(Seq<char>, Seq<char>)> {
    seq![
        ("calisto/sqlite.rb"@, SQLITE_SHIM@),
        ("calisto/hash.rb"@, HASH_SHIM@),
        ("calisto/base64.rb"@, BASE64_SHIM@),
        ("calisto/url.rb"@, URL_SHIM@),
        ("calisto/html.rb"@, HTML_SHIM@),
    ]
}

/// The files that make the native modules loadable.
pub fn native_shims() -> (r: Vec<(String, String)>)
    ensures
        request::pair_views(r@) == native_files(),
{
    let mut r: Vec<(String, String)> = Vec::new();
    r.push(("calisto/sqlite.rb".to_string(), SQLITE_SHIM.to_string()));
    r.push(("calisto/hash.rb".to_string(), HASH_SHIM.to_string()));
    r.push(("calisto/base64.rb".to_string(), BASE64_SHIM.to_string()));
    r.push(("calisto/url.rb".to_string(), URL_SHIM.to_string()));
    r.push(("calisto/html.rb".to_string(), HTML_SHIM.to_string()));
    assert(request::pair_views(r@) =~= native_files());
    r
}

} // verus!
